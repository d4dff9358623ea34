//! M2TS location metadata, kept so that playback need not parse the disc's
//! file system again, and the reading of the stream through it.

use vstd::prelude::*;
use crate::extents::IsoExtent;
use crate::read_at::{image_range, reads_image, reads_never_fail};
use crate::scan::{file_sizes, is_main_title, main_index, select_main_m2ts, M2tsFile};

verus! {

/// One extent of the stream inside the disc image.
#[derive(Clone, Copy, Debug, PartialEq, Eq, Structural)]
pub struct IsoExtentJson {
    /// Byte offset from the start of the image.
    pub offset: u64,
    /// Length in bytes.
    pub length: u64,
}

/// Where the main M2TS stream lies in the disc image: its name, its size and
/// its extents in stream order.
#[derive(Clone, Debug)]
pub struct IsoMeta {
    pub filename: String,
    pub size: u64,
    pub extents: Vec<IsoExtentJson>,
}

/// The stored form of the extent `e`.
pub open spec fn extent_json(e: IsoExtent) -> IsoExtentJson {
    IsoExtentJson { offset: e.offset, length: e.length }
}

/// `meta` records the file `m`: same name, size and extents.
pub open spec fn records_file(meta: IsoMeta, m: M2tsFile) -> bool {
    &&& meta.filename@ == m.filename@
    &&& meta.size == m.size
    &&& meta.extents@ == m.extents@.map_values(|e: IsoExtent| extent_json(e))
}

/// `meta` holds the name, the 64-bit size and each extent's offset and length
/// of `m`, field by field.
pub open spec fn copies_file(meta: IsoMeta, m: M2tsFile) -> bool {
    &&& meta.filename@ == m.filename@
    &&& meta.size == m.size
    &&& meta.extents@.len() == m.extents@.len()
    &&& forall|i: int| 0 <= i < meta.extents@.len() ==> (#[trigger] meta.extents@[i]).offset == m.extents@[i].offset
        && meta.extents@[i].length == m.extents@[i].length
}

/// A record of a file keeps its name, its 64-bit size and, extent by extent,
/// each offset and length exactly as the file has them.
pub proof fn law_record_keeps_every_number(meta: IsoMeta, m: M2tsFile)
    requires
        records_file(meta, m),
    ensures
        copies_file(meta, m),
{
    assert forall|i: int| 0 <= i < meta.extents@.len() implies (#[trigger] meta.extents@[i]).offset == m.extents@[i].offset
        && meta.extents@[i].length == m.extents@[i].length by {
        assert(meta.extents@[i] == extent_json(m.extents@[i]));
    }
}

impl IsoMeta {
    /// The metadata of the stream file `m`.
    pub fn from_m2ts(m: &M2tsFile) -> (meta: IsoMeta)
        ensures
            records_file(meta, *m),
            copies_file(meta, *m),
    {
        let mut extents: Vec<IsoExtentJson> = Vec::new();
        let n = m.extents.len();
        for i in 0..n
            invariant
                n == m.extents@.len(),
                extents@ == m.extents@.take(i as int).map_values(|e: IsoExtent| extent_json(e)),
        {
            let e = m.extents[i];
            extents.push(IsoExtentJson { offset: e.offset, length: e.length });
            assert(m.extents@.take(i + 1int) =~= m.extents@.take(i as int).push(e));
            assert(extents@ =~= m.extents@.take(i + 1int).map_values(|e: IsoExtent| extent_json(e)));
        }
        assert(m.extents@.take(n as int) =~= m.extents@);
        IsoMeta { filename: m.filename.clone(), size: m.size, extents }
    }
}

/// The message for a failed parse of the disc's file system.
pub open spec fn udf_failure_message(e: Seq<char>) -> Seq<char> {
    "UDF parse failed: "@ + e
}

/// Turns the outcome of the search for stream files into the metadata of the
/// main stream: a failed search and an empty stream directory are errors;
/// otherwise the largest stream file (the last of several equally large) is
/// recorded.
pub fn meta_from_scan(found: Result<Vec<M2tsFile>, String>) -> (r: Result<IsoMeta, String>)
    ensures
        (match found {
            Err(e) => r matches Err(msg) && msg@ == udf_failure_message(e@),
            Ok(files) => if files@.len() == 0 {
                r matches Err(msg) && msg@ == "No M2TS files found in BDMV/STREAM/ \u{2014} not a Blu-ray ISO?"@
            } else {
                r matches Ok(meta) && records_file(meta, files@[main_index(file_sizes(files@))])
                    && exists|k: int| #[trigger] is_main_title(files@, k) && copies_file(meta, files@[k])
            },
        }),
{
    match found {
        Err(e) => {
            let mut msg = String::from_str("UDF parse failed: ");
            msg.append(e.as_str());
            Err(msg)
        },
        Ok(files) => {
            if files.len() == 0 {
                return Err(String::from_str("No M2TS files found in BDMV/STREAM/ \u{2014} not a Blu-ray ISO?"));
            }
            match select_main_m2ts(files.as_slice()) {
                Some(main) => Ok(IsoMeta::from_m2ts(main)),
                None => Err(String::from_str("Could not select main M2TS from ISO")),
            }
        },
    }
}

/// Every byte of extent `e` has a 64-bit address.
pub open spec fn extent_addressable(e: IsoExtentJson) -> bool {
    e.offset as int + e.length as int <= u64::MAX as int + 1
}

/// The bytes read for the stream range that starts `pos` bytes into
/// `extents` and is `remaining` bytes long, when each extent is read from
/// `image`: the part of the range in each extent, in order. A read that ends
/// short at the end of the image leaves the rest of that extent unread; the
/// range then goes on at the start of the next extent.
pub open spec fn mapped_read(extents: Seq<IsoExtentJson>, image: Seq<u8>, pos: int, remaining: int) -> Seq<u8>
    decreases extents.len(),
{
    if extents.len() == 0 || remaining <= 0 {
        Seq::empty()
    } else {
        let e = extents[0];
        if pos >= e.length {
            mapped_read(extents.drop_first(), image, pos - e.length, remaining)
        } else {
            let want = if e.length - pos <= remaining { e.length - pos } else { remaining };
            let chunk = image_range(image, e.offset + pos, want);
            chunk + mapped_read(extents.drop_first(), image, 0, remaining - chunk.len())
        }
    }
}

proof fn lemma_image_range_len(image: Seq<u8>, offset: int, len: int)
    requires
        offset >= 0,
        len >= 0,
    ensures
        image_range(image, offset, len).len() <= len,
{
}

/// Where a read of the stream stands: the index of the next extent to look
/// at, the position in the stream counted from that extent's start, and the
/// number of bytes still wanted.
pub struct ReadPoint {
    pub next: int,
    pub pos: int,
    pub remaining: int,
}

/// A read of the disc image: the index of the extent it falls in, its image
/// offset and its length.
pub struct PhysicalRead {
    pub extent: int,
    pub offset: int,
    pub len: int,
}

/// The read made from `s` on: extents that lie wholly before the position are
/// passed over; the first one that holds it is read from the position to its
/// end, or fewer bytes when fewer are wanted. No read is made once no bytes
/// are wanted or no extent is left.
pub open spec fn next_read(extents: Seq<IsoExtentJson>, s: ReadPoint) -> Option<PhysicalRead>
    decreases extents.len() - s.next,
{
    if s.next < 0 || s.next >= extents.len() || s.remaining <= 0 {
        None
    } else {
        let e = extents[s.next];
        if s.pos >= e.length {
            next_read(extents, ReadPoint { next: s.next + 1, pos: s.pos - e.length, remaining: s.remaining })
        } else {
            Some(PhysicalRead {
                extent: s.next,
                offset: e.offset + s.pos,
                len: min_int(e.length - s.pos, s.remaining),
            })
        }
    }
}

/// Where the read stands after the read `rd`, made at `s`, returned `got`
/// bytes: at the start of the next extent, wanting `got` bytes fewer (none,
/// if more came back than were wanted).
pub open spec fn after_read(rd: PhysicalRead, s: ReadPoint, got: int) -> ReadPoint {
    ReadPoint {
        next: rd.extent + 1,
        pos: 0,
        remaining: if got <= s.remaining { s.remaining - got } else { 0 },
    }
}

/// Where the read stands, from `start`, once the reads made have returned
/// `chunks`, in order.
pub open spec fn point_after(extents: Seq<IsoExtentJson>, start: ReadPoint, chunks: Seq<Seq<u8>>) -> ReadPoint
    decreases chunks.len(),
{
    if chunks.len() == 0 {
        start
    } else {
        let s = point_after(extents, start, chunks.drop_last());
        match next_read(extents, s) {
            Some(rd) => after_read(rd, s, chunks.last().len() as int),
            None => s,
        }
    }
}

/// The `k`-th read made (from 0), when the reads before it returned the
/// first `k` of `chunks`.
pub open spec fn read_made(extents: Seq<IsoExtentJson>, start: ReadPoint, chunks: Seq<Seq<u8>>, k: int) -> Option<PhysicalRead> {
    next_read(extents, point_after(extents, start, chunks.take(k)))
}

/// The start of a read of `size` bytes at stream position `m2ts_offset`.
pub open spec fn start_point(m2ts_offset: u64, size: usize) -> ReadPoint {
    ReadPoint { next: 0, pos: m2ts_offset as int, remaining: size as int }
}

/// `chunks` joined in order.
pub open spec fn joined(chunks: Seq<Seq<u8>>) -> Seq<u8>
    decreases chunks.len(),
{
    if chunks.len() == 0 {
        Seq::empty()
    } else {
        joined(chunks.drop_last()) + chunks.last()
    }
}

/// The contents of `chunks`.
pub open spec fn chunk_views(chunks: Seq<Vec<u8>>) -> Seq<Seq<u8>> {
    chunks.map_values(|c: Vec<u8>| c@)
}

/// Reading from `start` through `f`, the reads made returned `chunks` one
/// after the other, and `r` is the outcome: on success the chunks joined,
/// with no read left to make; on failure, the error of the read that followed
/// them, unchanged.
pub open spec fn read_run<F: Fn(u64, usize) -> std::io::Result<Vec<u8>>>(
    f: F,
    extents: Seq<IsoExtentJson>,
    start: ReadPoint,
    chunks: Seq<Vec<u8>>,
    r: std::io::Result<Vec<u8>>,
) -> bool {
    let views = chunk_views(chunks);
    &&& forall|k: int| 0 <= k < chunks.len() ==> (#[trigger] read_made(extents, start, views, k) matches Some(rd)
        && call_ensures(f, (rd.offset as u64, rd.len as usize), Ok::<Vec<u8>, std::io::Error>(chunks[k])))
    &&& match r {
        Ok(v) => v@ == joined(views) && next_read(extents, point_after(extents, start, views)) is None,
        Err(e) => next_read(extents, point_after(extents, start, views)) matches Some(rd)
            && call_ensures(f, (rd.offset as u64, rd.len as usize), Err::<Vec<u8>, std::io::Error>(e)),
    }
}

/// A read of `len` bytes at image offset `offset` that lies within one of
/// `extents` and asks for between 1 and `size` bytes.
pub open spec fn read_within_extents(extents: Seq<IsoExtentJson>, offset: int, len: int, size: int) -> bool {
    &&& 1 <= len <= size
    &&& exists|i: int| 0 <= i < extents.len() && #[trigger] extents[i].offset <= offset
        && offset + len <= extents[i].offset + extents[i].length
}

/// No successful read through `f` returns more bytes than it asked for.
pub open spec fn reads_at_most_asked<F: Fn(u64, usize) -> std::io::Result<Vec<u8>>>(f: F) -> bool {
    forall|offset: u64, len: usize, r: std::io::Result<Vec<u8>>|
        #[trigger] call_ensures(f, (offset, len), r) ==> (r matches Ok(v) ==> v@.len() <= len)
}

proof fn lemma_no_read_past_stream(extents: Seq<IsoExtentJson>, s: ReadPoint)
    requires
        0 <= s.next,
        s.remaining <= 0 || s.pos >= total_extent_length(extents.skip(s.next)),
    ensures
        next_read(extents, s) is None,
    decreases extents.len() - s.next,
{
    if s.next < extents.len() && s.remaining > 0 {
        let rest = extents.skip(s.next);
        assert(rest.drop_first() =~= extents.skip(s.next + 1));
        assert(rest[0] == extents[s.next]);
        lemma_total_extent_length_nonneg(extents.skip(s.next + 1));
        lemma_no_read_past_stream(extents, ReadPoint { next: s.next + 1, pos: s.pos - extents[s.next].length, remaining: s.remaining });
    }
}

proof fn lemma_total_extent_length_nonneg(extents: Seq<IsoExtentJson>)
    ensures
        total_extent_length(extents) >= 0,
    decreases extents.len(),
{
    if extents.len() > 0 {
        lemma_total_extent_length_nonneg(extents.drop_first());
    }
}

/// Reads `size` bytes of the stream starting `m2ts_offset` bytes into it,
/// where the stream is laid out in the disc image in `extents`, in order;
/// `iso_read(offset, len)` reads `len` bytes at absolute image position
/// `offset`. Each extent that holds part of the range is read once, in order,
/// and the chunks are joined; the first failed read's error is returned and
/// no read follows it.
pub fn read_from_m2ts_extents<F: Fn(u64, usize) -> std::io::Result<Vec<u8>>>(
    extents: &[IsoExtentJson],
    m2ts_offset: u64,
    size: usize,
    iso_read: F,
) -> (r: std::io::Result<Vec<u8>>)
    requires
        forall|i: int| 0 <= i < extents@.len() ==> extent_addressable(#[trigger] extents@[i]),
        forall|offset: u64, len: usize| read_within_extents(extents@, offset as int, len as int, size as int)
            ==> #[trigger] call_requires(iso_read, (offset, len)),
    ensures
        exists|chunks: Seq<Vec<u8>>| read_run(iso_read, extents@, start_point(m2ts_offset, size), chunks, r),
        size == 0 || m2ts_offset >= total_extent_length(extents@) ==> (r matches Ok(v) && v@.len() == 0),
        reads_never_fail(iso_read) ==> r is Ok,
        reads_at_most_asked(iso_read) ==> (r matches Ok(v) ==> v@.len() <= size),
        forall|image: Seq<u8>| #![trigger reads_image(iso_read, image)]
            reads_image(iso_read, image) ==> (r matches Ok(v) ==> v@ == mapped_read(
                extents@,
                image,
                m2ts_offset as int,
                size as int,
            )),
{
    let mut result: Vec<u8> = Vec::with_capacity(size);
    let mut remaining: u64 = size as u64;
    let mut logical_pos: u64 = m2ts_offset;
    let n = extents.len();
    let mut i: usize = 0;
    let ghost start = start_point(m2ts_offset, size);
    let ghost mut chunks: Seq<Vec<u8>> = Seq::empty();
    proof {
        assert(extents@.skip(0) =~= extents@);
        assert forall|image: Seq<u8>| #![trigger reads_image(iso_read, image)] reads_image(iso_read, image) implies
            result@ + mapped_read(extents@.skip(0), image, logical_pos as int, remaining as int)
                == mapped_read(extents@, image, m2ts_offset as int, size as int) by {
            let t = mapped_read(extents@, image, m2ts_offset as int, size as int);
            assert(result@ + t =~= t);
        }
        assert(chunk_views(chunks) =~= Seq::<Seq<u8>>::empty());
        assert(result@ =~= joined(chunk_views(chunks)));
    }
    while i < n && remaining > 0
        invariant
            n == extents@.len(),
            i <= n,
            remaining <= size,
            start == start_point(m2ts_offset, size),
            forall|j: int| 0 <= j < extents@.len() ==> extent_addressable(#[trigger] extents@[j]),
            forall|offset: u64, len: usize| read_within_extents(extents@, offset as int, len as int, size as int)
                ==> #[trigger] call_requires(iso_read, (offset, len)),
            forall|image: Seq<u8>| #![trigger reads_image(iso_read, image)] reads_image(iso_read, image) ==>
                result@ + mapped_read(extents@.skip(i as int), image, logical_pos as int, remaining as int)
                    == mapped_read(extents@, image, m2ts_offset as int, size as int),
            reads_at_most_asked(iso_read) ==> result@.len() + remaining == size,
            result@ == joined(chunk_views(chunks)),
            forall|k: int| 0 <= k < chunks.len() ==> (#[trigger] read_made(extents@, start, chunk_views(chunks), k) matches Some(rd)
                && call_ensures(iso_read, (rd.offset as u64, rd.len as usize), Ok::<Vec<u8>, std::io::Error>(chunks[k]))),
            next_read(extents@, ReadPoint { next: i as int, pos: logical_pos as int, remaining: remaining as int })
                == next_read(extents@, point_after(extents@, start, chunk_views(chunks))),
            remaining == point_after(extents@, start, chunk_views(chunks)).remaining,
        decreases n - i,
    {
        let ghost rest = extents@.skip(i as int);
        assert(rest.drop_first() =~= extents@.skip(i + 1int));
        assert(rest[0] == extents@[i as int]);
        let ext = extents[i];
        if logical_pos >= ext.length {
            let ghost old_pos = logical_pos;
            logical_pos = logical_pos - ext.length;
            i = i + 1;
            assert forall|image: Seq<u8>| #![trigger reads_image(iso_read, image)] reads_image(iso_read, image) implies
                mapped_read(rest, image, old_pos as int, remaining as int)
                    == mapped_read(extents@.skip(i as int), image, logical_pos as int, remaining as int) by {}
            continue;
        }
        let ext_read_offset = logical_pos;
        let avail = ext.length - ext_read_offset;
        let want: u64 = if avail <= remaining { avail } else { remaining };
        assert(extent_addressable(extents@[i as int]));
        let iso_offset = ext.offset + ext_read_offset;
        let ghost rd = PhysicalRead { extent: i as int, offset: iso_offset as int, len: want as int };
        let ghost views = chunk_views(chunks);
        let ghost here = point_after(extents@, start, views);
        assert(next_read(extents@, ReadPoint { next: i as int, pos: logical_pos as int, remaining: remaining as int }) == Some(rd));
        assert(extents@[i as int].offset <= iso_offset && iso_offset + want <= extents@[i as int].offset + extents@[i as int].length);
        assert(read_within_extents(extents@, iso_offset as int, want as int, size as int));
        let read = iso_read(iso_offset, want as usize);
        let ghost read_g = read;
        let mut chunk = match read {
            Ok(c) => c,
            Err(e) => {
                proof {
                    assert(call_ensures(iso_read, (iso_offset, want as usize), read_g));
                    assert(read_run(iso_read, extents@, start, chunks, Err::<Vec<u8>, std::io::Error>(e)));
                    if size == 0 || m2ts_offset >= total_extent_length(extents@) {
                        assert(extents@.skip(0) =~= extents@);
            lemma_no_read_past_stream(extents@, start);
                        if chunks.len() > 0 {
                            assert(chunk_views(chunks).take(0) =~= Seq::<Seq<u8>>::empty());
                            assert(read_made(extents@, start, chunk_views(chunks), 0) is Some);
                        } else {
                            assert(views =~= Seq::<Seq<u8>>::empty());
                        }
                    }
                }
                return Err(e);
            },
        };
        let got = chunk.len();
        let ghost chunk_v = chunk@;
        assert(read_g == Ok::<Vec<u8>, std::io::Error>(chunk));
        let ghost before = result@;
        let ghost old_chunks = chunks;
        let ghost chunk_g = chunk;
        result.append(&mut chunk);
        remaining = remaining.saturating_sub(got as u64);
        logical_pos = 0;
        i = i + 1;
        proof {
            chunks = old_chunks.push(chunk_g);
            let nviews = chunk_views(chunks);
            assert(nviews =~= views.push(chunk_v));
            assert(nviews.drop_last() =~= views);
            assert(joined(nviews) == joined(views) + chunk_v);
            assert forall|k: int| 0 <= k < chunks.len() implies (#[trigger] read_made(extents@, start, chunk_views(chunks), k) matches Some(rdk)
                && call_ensures(iso_read, (rdk.offset as u64, rdk.len as usize), Ok::<Vec<u8>, std::io::Error>(chunks[k]))) by {
                if k < old_chunks.len() {
                    assert(nviews.take(k) =~= views.take(k));
                    assert(read_made(extents@, start, views, k) == read_made(extents@, start, nviews, k));
                    assert(chunks[k] == old_chunks[k]);
                } else {
                    assert(nviews.take(k) =~= views);
                    assert(chunks[k] == chunk_g);
                }
            }
            assert(point_after(extents@, start, nviews) == after_read(rd, here, chunk_v.len() as int));
            assert forall|image: Seq<u8>| #![trigger reads_image(iso_read, image)] reads_image(iso_read, image) implies
                result@ + mapped_read(extents@.skip(i as int), image, logical_pos as int, remaining as int)
                    == mapped_read(extents@, image, m2ts_offset as int, size as int) by {
                assert(call_ensures(iso_read, (iso_offset, want as usize), read_g));
                lemma_image_range_len(image, iso_offset as int, want as int);
                assert(chunk_v == image_range(image, iso_offset as int, want as int));
                assert(result@ == before + chunk_v);
                assert((before + chunk_v) + mapped_read(extents@.skip(i as int), image, 0, remaining as int)
                    =~= before + (chunk_v + mapped_read(extents@.skip(i as int), image, 0, remaining as int)));
            }
            if reads_at_most_asked(iso_read) {
                assert(call_ensures(iso_read, (iso_offset, want as usize), read_g));
            }
        }
    }
    proof {
        let views = chunk_views(chunks);
        assert(next_read(extents@, ReadPoint { next: i as int, pos: logical_pos as int, remaining: remaining as int }) is None);
        assert(read_run(iso_read, extents@, start, chunks, Ok::<Vec<u8>, std::io::Error>(result)));
        assert forall|image: Seq<u8>| #![trigger reads_image(iso_read, image)] reads_image(iso_read, image) implies
            result@ == mapped_read(extents@, image, m2ts_offset as int, size as int) by {
            if i == n {
                assert(extents@.skip(n as int) =~= Seq::<IsoExtentJson>::empty());
            }
            assert(mapped_read(extents@.skip(i as int), image, logical_pos as int, remaining as int) =~= Seq::<u8>::empty());
            assert(result@ + Seq::<u8>::empty() =~= result@);
        }
        if size == 0 || m2ts_offset >= total_extent_length(extents@) {
            assert(extents@.skip(0) =~= extents@);
            lemma_no_read_past_stream(extents@, start);
            if chunks.len() > 0 {
                assert(views.take(0) =~= Seq::<Seq<u8>>::empty());
                assert(read_made(extents@, start, views, 0) is Some);
            }
            assert(views =~= Seq::<Seq<u8>>::empty());
        }
    }
    Ok(result)
}

/// The stream's bytes: the bytes of each extent of `extents` in `image`, in order.
pub open spec fn stream_bytes(extents: Seq<IsoExtentJson>, image: Seq<u8>) -> Seq<u8>
    decreases extents.len(),
{
    if extents.len() == 0 {
        Seq::empty()
    } else {
        let e = extents[0];
        image.subrange(e.offset as int, e.offset + e.length) + stream_bytes(extents.drop_first(), image)
    }
}

/// Every extent of `extents` lies within `image`.
pub open spec fn extents_within(extents: Seq<IsoExtentJson>, image: Seq<u8>) -> bool {
    forall|i: int| 0 <= i < extents.len() ==> #[trigger] extents[i].offset + extents[i].length <= image.len()
}

proof fn lemma_stream_bytes_len(extents: Seq<IsoExtentJson>, image: Seq<u8>)
    requires
        extents_within(extents, image),
    ensures
        stream_bytes(extents, image).len() == total_extent_length(extents),
    decreases extents.len(),
{
    if extents.len() > 0 {
        let rest = extents.drop_first();
        assert forall|i: int| 0 <= i < rest.len() implies #[trigger] rest[i].offset + rest[i].length <= image.len() by {
            assert(rest[i] == extents[i + 1]);
        }
        assert(extents[0].offset + extents[0].length <= image.len());
        lemma_stream_bytes_len(rest, image);
    }
}

/// Sum of the lengths of `extents`.
pub open spec fn total_extent_length(extents: Seq<IsoExtentJson>) -> int
    decreases extents.len(),
{
    if extents.len() == 0 {
        0
    } else {
        extents[0].length + total_extent_length(extents.drop_first())
    }
}

/// The smaller of `a` and `b`.
pub open spec fn min_int(a: int, b: int) -> int {
    if a <= b { a } else { b }
}

/// When every extent lies within the disc image, a read of `remaining` bytes
/// at stream position `pos` gives exactly the stream's bytes from `pos` on,
/// `remaining` of them or as many as the stream still has.
pub proof fn law_read_gives_stream_bytes(extents: Seq<IsoExtentJson>, image: Seq<u8>, pos: int, remaining: int)
    requires
        extents_within(extents, image),
        pos >= 0,
        remaining >= 0,
    ensures
        ({
            let s = stream_bytes(extents, image);
            mapped_read(extents, image, pos, remaining)
                == s.subrange(min_int(pos, s.len() as int), min_int(pos + remaining, s.len() as int))
        }),
    decreases extents.len(),
{
    let s = stream_bytes(extents, image);
    if extents.len() == 0 {
        assert(s.subrange(0, 0) =~= Seq::<u8>::empty());
    } else {
        let e = extents[0];
        let rest = extents.drop_first();
        assert(e.offset + e.length <= image.len()) by {
            assert(extents[0] == e);
        }
        assert forall|i: int| 0 <= i < rest.len() implies #[trigger] rest[i].offset + rest[i].length <= image.len() by {
            assert(rest[i] == extents[i + 1]);
        }
        let seg = image.subrange(e.offset as int, e.offset + e.length);
        let f = stream_bytes(rest, image);
        assert(s == seg + f);
        let len = e.length as int;
        let t = s.len() as int;
        if remaining == 0 {
            let a = min_int(pos, t);
            assert(s.subrange(a, a) =~= Seq::<u8>::empty());
        } else if pos >= len {
            law_read_gives_stream_bytes(rest, image, pos - len, remaining);
            assert(s.subrange(min_int(pos, t), min_int(pos + remaining, t))
                =~= f.subrange(min_int(pos - len, f.len() as int), min_int(pos - len + remaining, f.len() as int)));
        } else {
            let want = if len - pos <= remaining { len - pos } else { remaining };
            let chunk = image_range(image, e.offset + pos, want);
            assert(chunk =~= seg.subrange(pos, pos + want));
            law_read_gives_stream_bytes(rest, image, 0, remaining - want);
            if want == remaining {
                assert(f.subrange(0, 0) =~= Seq::<u8>::empty());
                assert(chunk + Seq::<u8>::empty() =~= chunk);
                assert(s.subrange(pos, pos + remaining) =~= seg.subrange(pos, pos + remaining));
            } else {
                assert(s.subrange(pos, min_int(pos + remaining, t))
                    =~= seg.subrange(pos, len) + f.subrange(0, min_int(remaining - want, f.len() as int)));
            }
        }
    }
}

/// Reading the whole stream from its start gives the stream's bytes.
pub proof fn law_whole_read_gives_stream(extents: Seq<IsoExtentJson>, image: Seq<u8>)
    requires
        extents_within(extents, image),
    ensures
        mapped_read(extents, image, 0, total_extent_length(extents)) == stream_bytes(extents, image),
{
    lemma_stream_bytes_len(extents, image);
    law_read_gives_stream_bytes(extents, image, 0, total_extent_length(extents));
    let s = stream_bytes(extents, image);
    assert(s.subrange(0, s.len() as int) =~= s);
}

/// Every read lies within one extent, at or after the read point's extent,
/// and asks for at least 1 and at most the wanted number of bytes.
pub proof fn law_read_within_one_extent(extents: Seq<IsoExtentJson>, s: ReadPoint)
    requires
        s.pos >= 0,
    ensures
        next_read(extents, s) matches Some(rd) ==> {
            &&& s.next <= rd.extent < extents.len()
            &&& extents[rd.extent].offset <= rd.offset
            &&& rd.offset + rd.len <= extents[rd.extent].offset + extents[rd.extent].length
            &&& 1 <= rd.len <= s.remaining
        },
    decreases extents.len() - s.next,
{
    if 0 <= s.next < extents.len() && s.remaining > 0 && s.pos >= extents[s.next].length {
        law_read_within_one_extent(extents, ReadPoint { next: s.next + 1, pos: s.pos - extents[s.next].length, remaining: s.remaining });
    }
}

proof fn lemma_point_after_moves_on(extents: Seq<IsoExtentJson>, start: ReadPoint, chunks: Seq<Seq<u8>>, m: int)
    requires
        start.pos >= 0,
        0 <= m <= chunks.len(),
    ensures
        ({
            let p = point_after(extents, start, chunks.take(m));
            &&& p.next >= start.next
            &&& p.pos >= 0
            &&& p.remaining <= start.remaining || m == 0
            &&& forall|j: int| 0 <= j < m ==> (#[trigger] read_made(extents, start, chunks, j) matches Some(rd) ==> p.next > rd.extent)
        }),
    decreases m,
{
    if m > 0 {
        lemma_point_after_moves_on(extents, start, chunks, m - 1);
        let q = point_after(extents, start, chunks.take(m - 1));
        assert(chunks.take(m).drop_last() =~= chunks.take(m - 1));
        law_read_within_one_extent(extents, q);
        let p = point_after(extents, start, chunks.take(m));
        assert forall|j: int| 0 <= j < m implies (#[trigger] read_made(extents, start, chunks, j) matches Some(rd) ==> p.next > rd.extent) by {
            if j == m - 1 {
                assert(read_made(extents, start, chunks, j) == next_read(extents, q));
            }
        }
    }
}

/// The reads are made in increasing extent order, at most one per extent,
/// and none asks for more than the bytes wanted at the start.
pub proof fn law_reads_in_extent_order(extents: Seq<IsoExtentJson>, start: ReadPoint, chunks: Seq<Seq<u8>>, j: int, k: int)
    requires
        start.pos >= 0,
        0 <= j < k <= chunks.len(),
        read_made(extents, start, chunks, j) is Some,
        read_made(extents, start, chunks, k) is Some,
    ensures
        read_made(extents, start, chunks, j)->0.extent < read_made(extents, start, chunks, k)->0.extent,
        read_made(extents, start, chunks, k)->0.len <= start.remaining,
{
    lemma_point_after_moves_on(extents, start, chunks, k);
    let p = point_after(extents, start, chunks.take(k));
    law_read_within_one_extent(extents, p);
}

/// `extents` with an extent of length 0 at image offset `x` inserted at index `p`.
pub open spec fn with_empty_extent(extents: Seq<IsoExtentJson>, p: int, x: u64) -> Seq<IsoExtentJson> {
    extents.insert(p, IsoExtentJson { offset: x, length: 0 })
}

/// The read points `s` in `extents` and `s2` in the same extents with an
/// empty extent inserted at index `p` stand at the same place.
spec fn same_place(s: ReadPoint, s2: ReadPoint, p: int) -> bool {
    &&& s.pos == s2.pos
    &&& s.remaining == s2.remaining
    &&& s.pos >= 0
    &&& s.next >= 0
    &&& (s2.next == s.next && s.next <= p) || (s2.next == s.next + 1 && s.next >= p)
}

/// Reads `a` and `b` ask for the same bytes of the image.
pub open spec fn same_read(a: Option<PhysicalRead>, b: Option<PhysicalRead>) -> bool {
    match (a, b) {
        (None, None) => true,
        (Some(x), Some(y)) => x.offset == y.offset && x.len == y.len,
        _ => false,
    }
}

proof fn lemma_same_place_next_read(extents: Seq<IsoExtentJson>, p: int, x: u64, s: ReadPoint, s2: ReadPoint)
    requires
        0 <= p <= extents.len(),
        same_place(s, s2, p),
    ensures
        same_read(next_read(extents, s), next_read(with_empty_extent(extents, p, x), s2)),
        next_read(extents, s) matches Some(rd) ==> next_read(with_empty_extent(extents, p, x), s2)->0.extent
            == rd.extent + (if rd.extent >= p { 1int } else { 0int }),
    decreases with_empty_extent(extents, p, x).len() - s2.next,
{
    let e2 = with_empty_extent(extents, p, x);
    if s.remaining > 0 && s2.next < e2.len() {
        if s2.next == p {
            assert(e2[p].length == 0);
            let s3 = ReadPoint { next: p + 1, pos: s2.pos, remaining: s2.remaining };
            lemma_same_place_next_read(extents, p, x, s, s3);
        } else {
            assert(s.next < extents.len());
            assert(e2[s2.next] == extents[s.next]);
            let len = extents[s.next].length;
            if s.pos >= len {
                let t = ReadPoint { next: s.next + 1, pos: s.pos - len, remaining: s.remaining };
                let t2 = ReadPoint { next: s2.next + 1, pos: s2.pos - len, remaining: s2.remaining };
                lemma_same_place_next_read(extents, p, x, t, t2);
            }
        }
    }
}

proof fn lemma_same_place_after(extents: Seq<IsoExtentJson>, p: int, x: u64, start: ReadPoint, chunks: Seq<Seq<u8>>)
    requires
        0 <= p <= extents.len(),
        start.next == 0,
        start.pos >= 0,
    ensures
        same_place(point_after(extents, start, chunks), point_after(with_empty_extent(extents, p, x), start, chunks), p),
    decreases chunks.len(),
{
    if chunks.len() > 0 {
        let c = chunks.drop_last();
        lemma_same_place_after(extents, p, x, start, c);
        let s = point_after(extents, start, c);
        let s2 = point_after(with_empty_extent(extents, p, x), start, c);
        lemma_same_place_next_read(extents, p, x, s, s2);
        law_read_within_one_extent(extents, s);
        assert(chunks.drop_last() == c);
    }
}

/// An extent of length 0 changes nothing: with one inserted anywhere, every
/// read is the same read of the image, and a run of reads, its chunks and its
/// outcome are the same.
pub proof fn law_empty_extent_changes_nothing<F: Fn(u64, usize) -> std::io::Result<Vec<u8>>>(
    f: F,
    extents: Seq<IsoExtentJson>,
    p: int,
    x: u64,
    m2ts_offset: u64,
    size: usize,
    chunks: Seq<Vec<u8>>,
    r: std::io::Result<Vec<u8>>,
)
    requires
        0 <= p <= extents.len(),
    ensures
        forall|k: int| 0 <= k <= chunks.len() ==> same_read(
            #[trigger] read_made(extents, start_point(m2ts_offset, size), chunk_views(chunks), k),
            read_made(with_empty_extent(extents, p, x), start_point(m2ts_offset, size), chunk_views(chunks), k),
        ),
        read_run(f, extents, start_point(m2ts_offset, size), chunks, r)
            == read_run(f, with_empty_extent(extents, p, x), start_point(m2ts_offset, size), chunks, r),
{
    let start = start_point(m2ts_offset, size);
    let e2 = with_empty_extent(extents, p, x);
    let views = chunk_views(chunks);
    assert forall|k: int| 0 <= k <= chunks.len() implies same_read(
        #[trigger] read_made(extents, start, views, k),
        read_made(e2, start, views, k),
    ) by {
        lemma_same_place_after(extents, p, x, start, views.take(k));
        lemma_same_place_next_read(extents, p, x, point_after(extents, start, views.take(k)), point_after(e2, start, views.take(k)));
    }
    lemma_same_place_after(extents, p, x, start, views);
    lemma_same_place_next_read(extents, p, x, point_after(extents, start, views), point_after(e2, start, views));
    assert(views.take(views.len() as int) =~= views);
    if read_run(f, extents, start, chunks, r) {
        assert forall|k: int| 0 <= k < chunks.len() implies (#[trigger] read_made(e2, start, views, k) matches Some(rd)
            && call_ensures(f, (rd.offset as u64, rd.len as usize), Ok::<Vec<u8>, std::io::Error>(chunks[k]))) by {
            assert(same_read(read_made(extents, start, views, k), read_made(e2, start, views, k)));
        }
    }
    if read_run(f, e2, start, chunks, r) {
        assert forall|k: int| 0 <= k < chunks.len() implies (#[trigger] read_made(extents, start, views, k) matches Some(rd)
            && call_ensures(f, (rd.offset as u64, rd.len as usize), Ok::<Vec<u8>, std::io::Error>(chunks[k]))) by {
            assert(same_read(read_made(extents, start, views, k), read_made(e2, start, views, k)));
        }
    }
}

} // verus!
