//! Assembly of the unpacked file: the header records, the section table and
//! the sections' bytes, each written at its place in a buffer that grows as
//! needed, then what the file holds behind its last section.

use crate::bytes::{le_byte, le_word, lemma_le_word_of_bytes, read_le_word};
use crate::error::UnpackError;
use crate::image::{
    directory_count, headers_valid, image_sections, lemma_section_file_range, nt_offset,
    section_count, section_file_range, section_table_offset, Image, DATA_DIRECTORY_SIZE, DOS_HEADER_SIZE, NT_HEADERS_SIZE,
    SECTION_HEADER_SIZE,
};
use vstd::prelude::*;
use vstd::slice::{slice_subrange, slice_to_vec};

verus! {

/// The buffer `out` after `data` is written at `pos`: bytes in the way are
/// replaced, the buffer grows to hold what lies behind its end, and a gap
/// between its end and `pos` is filled with zero bytes. Writing nothing
/// changes nothing.
pub open spec fn written_at(out: Seq<u8>, pos: int, data: Seq<u8>) -> Seq<u8> {
    if data.len() == 0 {
        out
    } else {
        Seq::new(
            if out.len() < pos + data.len() {
                (pos + data.len()) as nat
            } else {
                out.len()
            },
            |j: int|
                if pos <= j < pos + data.len() {
                    data[j - pos]
                } else if j < out.len() {
                    out[j]
                } else {
                    0u8
                },
        )
    }
}

/// Writes `data` into `out` at `pos`. Fails with `Format`, and changes
/// nothing, where the end of the write is beyond what a buffer can hold.
pub fn write_at(out: &mut Vec<u8>, pos: usize, data: &[u8]) -> (r: Result<(), UnpackError>)
    ensures
        match r {
            Ok(_) => pos + data@.len() <= usize::MAX && final(out)@ == written_at(
                old(out)@,
                pos as int,
                data@,
            ),
            Err(e) => pos + data@.len() > usize::MAX && e == UnpackError::Format && final(out)@
                == old(out)@,
        },
{
    let n = data.len();
    if n > usize::MAX - pos {
        return Err(UnpackError::Format);
    }
    if n == 0 {
        return Ok(());
    }
    let ghost before = out@;
    if out.len() < pos {
        out.resize(pos, 0u8);
    }
    let ghost padded = out@;
    let mut k: usize = 0;
    while k < n
        invariant
            k <= n,
            n == data@.len(),
            0 < n,
            pos + n <= usize::MAX,
            pos <= padded.len(),
            padded.len() == if before.len() < pos {
                pos as nat
            } else {
                before.len()
            },
            forall|j: int| 0 <= j < before.len() ==> padded[j] == before[j],
            forall|j: int| before.len() <= j < padded.len() ==> padded[j] == 0u8,
            out@.len() == if padded.len() < pos + k {
                (pos + k) as nat
            } else {
                padded.len()
            },
            forall|j: int| pos <= j < pos + k ==> out@[j] == data@[j - pos],
            forall|j: int| 0 <= j < out@.len() && !(pos <= j < pos + k) ==> out@[j] == padded[j],
        decreases n - k,
    {
        if pos + k < out.len() {
            out[pos + k] = data[k];
        } else {
            out.push(data[k]);
        }
        k += 1;
    }
    proof {
        let want = written_at(before, pos as int, data@);
        assert(out@.len() == want.len());
        assert forall|j: int| 0 <= j < out@.len() implies out@[j] == want[j] by {
            if !(pos <= j < pos + n) {
                assert(out@[j] == padded[j]);
            }
        }
        assert(out@ =~= want);
    }
    Ok(())
}

/// Offset of the entry point in the NT headers record.
pub const ENTRY_POINT_AT: usize = 40;

/// Offset of the checksum in the NT headers record.
pub const CHECKSUM_AT: usize = 88;

/// The NT headers record with `entry` for its entry point and zero for its
/// checksum.
pub open spec fn patched_nt_headers(nt: Seq<u8>, entry: u32) -> Seq<u8> {
    Seq::new(
        nt.len(),
        |j: int|
            if ENTRY_POINT_AT <= j < ENTRY_POINT_AT + 4 {
                le_byte(entry, j - ENTRY_POINT_AT)
            } else if CHECKSUM_AT <= j < CHECKSUM_AT + 4 {
                0u8
            } else {
                nt[j]
            },
    )
}

/// The start of the unpacked file: the DOS header, zero bytes up to the
/// offset of the NT headers where that lies further on, the NT headers
/// patched, and the data directory.
pub open spec fn rebuilt_headers(image: Seq<u8>, entry: u32) -> Seq<u8> {
    let nt = nt_offset(image);
    let gap = if nt > DOS_HEADER_SIZE {
        (nt - DOS_HEADER_SIZE) as nat
    } else {
        0nat
    };
    image.subrange(0, DOS_HEADER_SIZE as int) + Seq::new(gap, |j: int| 0u8) + patched_nt_headers(
        image.subrange(nt, nt + NT_HEADERS_SIZE),
        entry,
    ) + image.subrange(
        nt + NT_HEADERS_SIZE,
        nt + NT_HEADERS_SIZE + DATA_DIRECTORY_SIZE * directory_count(image),
    )
}

/// Bytes that stand in for those of one section.
pub ghost struct Replacement {
    /// Index of the section.
    pub index: int,
    /// The bytes written in place of what the file holds for the section.
    pub bytes: Seq<u8>,
}

/// The bytes that are written for the section at `index`, which the file
/// holds from `start` to `end`.
pub open spec fn section_body(
    image: Seq<u8>,
    replaced: Option<Replacement>,
    index: int,
    start: int,
    end: int,
) -> Seq<u8> {
    match replaced {
        Some(r) => if r.index == index {
            r.bytes
        } else {
            image.subrange(start, end)
        },
        None => image.subrange(start, end),
    }
}

/// The buffer after the section at `index` is added: the record of its
/// header at `cursor`, then its bytes at the offset that they have in the
/// file. `Format` where its bytes are not in the file.
pub open spec fn rebuilt_section(
    image: Seq<u8>,
    out: Seq<u8>,
    cursor: int,
    replaced: Option<Replacement>,
    index: int,
) -> Result<Seq<u8>, UnpackError> {
    match section_file_range(image_sections(image)[index], image.len() as int) {
        None => Err(UnpackError::Format),
        Some((start, end)) => {
            let at = section_table_offset(image) + SECTION_HEADER_SIZE * index;
            let record = image.subrange(at, at + SECTION_HEADER_SIZE);
            let body = section_body(image, replaced, index, start, end);
            Ok(written_at(written_at(out, cursor, record), start, body))
        },
    }
}

/// The buffer after the sections from index `from` on are added, one after
/// the other, the cursor moving on by one record each time. `replaced` names
/// the one section that gets other bytes than the file holds for it.
pub open spec fn rebuilt_sections(
    image: Seq<u8>,
    out: Seq<u8>,
    cursor: int,
    replaced: Option<Replacement>,
    from: int,
) -> Result<Seq<u8>, UnpackError>
    decreases section_count(image) - from,
{
    if from < 0 || from >= section_count(image) {
        Ok(out)
    } else {
        match rebuilt_section(image, out, cursor, replaced, from) {
            Err(e) => Err(e),
            Ok(next) => rebuilt_sections(
                image,
                next,
                cursor + SECTION_HEADER_SIZE,
                replaced,
                from + 1,
            ),
        }
    }
}

/// The buffer after what the file holds behind its last section is written
/// at the offset that it has in the file. `Format` where the file has no
/// section.
pub open spec fn rebuilt_overlay(image: Seq<u8>, out: Seq<u8>) -> Result<Seq<u8>, UnpackError> {
    let sections = image_sections(image);
    if sections.len() == 0 {
        Err(UnpackError::Format)
    } else {
        let last = sections[sections.len() - 1];
        let end = last.pointer_to_raw_data + last.size_of_raw_data;
        if end < image.len() {
            Ok(written_at(out, end, image.subrange(end, image.len() as int)))
        } else {
            Ok(out)
        }
    }
}

/// The buffer after the sections from index `from` on and the overlay are
/// added.
pub open spec fn rebuilt_from(
    image: Seq<u8>,
    out: Seq<u8>,
    cursor: int,
    replaced: Option<Replacement>,
    from: int,
) -> Result<Seq<u8>, UnpackError> {
    match rebuilt_sections(image, out, cursor, replaced, from) {
        Ok(done) => rebuilt_overlay(image, done),
        Err(e) => Err(e),
    }
}

/// The unpacked file: headers, sections, overlay.
#[verifier::opaque]
pub open spec fn rebuilt(image: Seq<u8>, entry: u32, replaced: Option<Replacement>) -> Result<
    Seq<u8>,
    UnpackError,
> {
    let headers = rebuilt_headers(image, entry);
    rebuilt_from(image, headers, headers.len() as int, replaced, 0)
}

/// A result with what no buffer can hold turned into `Format`.
pub open spec fn within_memory(r: Result<Seq<u8>, UnpackError>) -> Result<Seq<u8>, UnpackError> {
    match r {
        Ok(out) => if out.len() <= usize::MAX {
            Ok(out)
        } else {
            Err(UnpackError::Format)
        },
        Err(e) => Err(e),
    }
}

/// Writing never shortens the buffer.
pub proof fn lemma_written_at_len(out: Seq<u8>, pos: int, data: Seq<u8>)
    ensures
        written_at(out, pos, data).len() >= out.len(),
        data.len() > 0 ==> written_at(out, pos, data).len() >= pos + data.len(),
{
}

/// Adding one section never shortens the buffer, and fails with `Format`
/// only.
pub proof fn lemma_rebuilt_section_len(
    image: Seq<u8>,
    out: Seq<u8>,
    cursor: int,
    replaced: Option<Replacement>,
    index: int,
)
    ensures
        match rebuilt_section(image, out, cursor, replaced, index) {
            Ok(next) => next.len() >= out.len(),
            Err(e) => e == UnpackError::Format,
        },
{
}

/// Adding sections never shortens the buffer, and fails with `Format` only.
pub proof fn lemma_rebuilt_sections_len(
    image: Seq<u8>,
    out: Seq<u8>,
    cursor: int,
    replaced: Option<Replacement>,
    from: int,
)
    ensures
        match rebuilt_sections(image, out, cursor, replaced, from) {
            Ok(done) => done.len() >= out.len(),
            Err(e) => e == UnpackError::Format,
        },
    decreases section_count(image) - from,
{
    if 0 <= from < section_count(image) {
        lemma_rebuilt_section_len(image, out, cursor, replaced, from);
        match rebuilt_section(image, out, cursor, replaced, from) {
            Err(_) => {},
            Ok(next) => {
                lemma_rebuilt_sections_len(
                    image,
                    next,
                    cursor + SECTION_HEADER_SIZE,
                    replaced,
                    from + 1,
                );
            },
        }
    }
}

/// Adding the overlay never shortens the buffer, and fails with `Format` only.
pub proof fn lemma_rebuilt_overlay_len(image: Seq<u8>, out: Seq<u8>)
    ensures
        match rebuilt_overlay(image, out) {
            Ok(done) => done.len() >= out.len(),
            Err(e) => e == UnpackError::Format,
        },
{
}

/// What was written stands where it was written, and what stood elsewhere in
/// the buffer stands there still.
pub proof fn lemma_written_at_holds(out: Seq<u8>, pos: int, data: Seq<u8>)
    requires
        0 <= pos,
    ensures
        data.len() > 0 ==> written_at(out, pos, data).subrange(pos, pos + data.len()) == data,
        forall|j: int|
            0 <= j < out.len() && !(pos <= j < pos + data.len()) ==> written_at(out, pos, data)[j]
                == out[j],
{
    if data.len() > 0 {
        assert(written_at(out, pos, data).subrange(pos, pos + data.len()) =~= data);
    }
}

/// The start of the unpacked file holds `entry` for the entry point and zero
/// for the checksum, behind the DOS header as the file has it and zero bytes
/// up to the NT headers; every other byte of the NT headers and of the data
/// directory is that of the file.
pub proof fn lemma_rebuilt_headers(image: Seq<u8>, entry: u32)
    requires
        headers_valid(image),
    ensures
        ({
            let nt = nt_offset(image);
            let at = if nt > DOS_HEADER_SIZE {
                nt
            } else {
                DOS_HEADER_SIZE as int
            };
            let rest = NT_HEADERS_SIZE + DATA_DIRECTORY_SIZE * directory_count(image);
            let headers = rebuilt_headers(image, entry);
            &&& headers.len() == at + rest
            &&& le_word(headers, at + ENTRY_POINT_AT) == entry
            &&& le_word(headers, at + CHECKSUM_AT) == 0
            &&& headers.subrange(0, DOS_HEADER_SIZE as int) == image.subrange(
                0,
                DOS_HEADER_SIZE as int,
            )
            &&& forall|j: int| DOS_HEADER_SIZE <= j < at ==> headers[j] == 0
            &&& forall|j: int|
                0 <= j < rest && !(ENTRY_POINT_AT <= j < ENTRY_POINT_AT + 4) && !(CHECKSUM_AT <= j
                    < CHECKSUM_AT + 4) ==> #[trigger] headers[at + j] == image[nt + j]
        }),
{
    let nt = nt_offset(image);
    let at = if nt > DOS_HEADER_SIZE {
        nt
    } else {
        DOS_HEADER_SIZE as int
    };
    let headers = rebuilt_headers(image, entry);
    assert(headers[at + ENTRY_POINT_AT] == le_byte(entry, 0));
    assert(headers[at + ENTRY_POINT_AT + 1] == le_byte(entry, 1));
    assert(headers[at + ENTRY_POINT_AT + 2] == le_byte(entry, 2));
    assert(headers[at + ENTRY_POINT_AT + 3] == le_byte(entry, 3));
    lemma_le_word_of_bytes(headers, at + ENTRY_POINT_AT, entry);
    assert(headers[at + CHECKSUM_AT] == 0);
    assert(headers[at + CHECKSUM_AT + 1] == 0);
    assert(headers[at + CHECKSUM_AT + 2] == 0);
    assert(headers[at + CHECKSUM_AT + 3] == 0);
    assert((0u8 as u32) | (0u8 as u32) << 8 | (0u8 as u32) << 16 | (0u8 as u32) << 24 == 0u32)
        by (bit_vector);
    assert(headers.subrange(0, DOS_HEADER_SIZE as int) =~= image.subrange(
        0,
        DOS_HEADER_SIZE as int,
    ));
}

/// What the file holds behind its last section, the unpacked file holds at
/// the same place.
pub proof fn lemma_overlay_kept(image: Seq<u8>, out: Seq<u8>)
    requires
        rebuilt_overlay(image, out) is Ok,
    ensures
        ({
            let last = image_sections(image)[image_sections(image).len() - 1];
            let end = last.pointer_to_raw_data + last.size_of_raw_data;
            let done = rebuilt_overlay(image, out)->Ok_0;
            end < image.len() ==> done.len() >= image.len() && done.subrange(
                end,
                image.len() as int,
            ) == image.subrange(end, image.len() as int)
        }),
{
    let last = image_sections(image)[image_sections(image).len() - 1];
    let end = last.pointer_to_raw_data + last.size_of_raw_data;
    if end < image.len() {
        lemma_written_at_holds(out, end, image.subrange(end, image.len() as int));
    }
}

/// What is built on a buffer is no shorter than the buffer, and building
/// fails with `Format` only; so a buffer that memory cannot hold ends in
/// `Format`.
pub proof fn lemma_rebuilt_from_len(
    image: Seq<u8>,
    out: Seq<u8>,
    cursor: int,
    replaced: Option<Replacement>,
    from: int,
)
    ensures
        match rebuilt_from(image, out, cursor, replaced, from) {
            Ok(done) => done.len() >= out.len(),
            Err(e) => e == UnpackError::Format,
        },
        out.len() > usize::MAX ==> within_memory(rebuilt_from(image, out, cursor, replaced, from))
            == Err::<Seq<u8>, UnpackError>(UnpackError::Format),
{
    lemma_rebuilt_sections_len(image, out, cursor, replaced, from);
    match rebuilt_sections(image, out, cursor, replaced, from) {
        Ok(done) => {
            lemma_rebuilt_overlay_len(image, done);
        },
        Err(_) => {},
    }
}

/// The replacement that the arguments of `reconstruct` name.
pub open spec fn replacement_of(replaced: Option<(usize, &[u8])>) -> Option<Replacement> {
    match replaced {
        Some((index, bytes)) => Some(Replacement { index: index as int, bytes: bytes@ }),
        None => None,
    }
}

fn patch_nt_headers(nt: &[u8], entry: u32) -> (patched: Vec<u8>)
    requires
        nt@.len() == NT_HEADERS_SIZE,
    ensures
        patched@ == patched_nt_headers(nt@, entry),
{
    let mut patched = slice_to_vec(nt);
    patched[ENTRY_POINT_AT] = (entry & 0xff) as u8;
    patched[ENTRY_POINT_AT + 1] = ((entry >> 8) & 0xff) as u8;
    patched[ENTRY_POINT_AT + 2] = ((entry >> 16) & 0xff) as u8;
    patched[ENTRY_POINT_AT + 3] = ((entry >> 24) & 0xff) as u8;
    patched[CHECKSUM_AT] = 0;
    patched[CHECKSUM_AT + 1] = 0;
    patched[CHECKSUM_AT + 2] = 0;
    patched[CHECKSUM_AT + 3] = 0;
    assert(patched@ =~= patched_nt_headers(nt@, entry));
    patched
}

fn build_headers(image: &Image, entry: u32) -> (out: Vec<u8>)
    requires
        image.wf(),
    ensures
        out@ == rebuilt_headers(image.bytes(), entry),
{
    proof {
        image.lemma_wf();
    }
    let dos = image.dos_header();
    let nt = patch_nt_headers(image.nt_headers().as_slice(), entry);
    let directory = image.data_directory();
    let declared = read_le_word(dos.as_slice(), 60);
    assert(declared == nt_offset(image.bytes()));
    let ghost gap = if declared > DOS_HEADER_SIZE {
        (declared - DOS_HEADER_SIZE) as nat
    } else {
        0nat
    };
    let mut out: Vec<u8> = Vec::new();
    out.extend_from_slice(dos.as_slice());
    assert(out@ =~= dos@);
    if declared > 64 {
        out.resize(declared as usize, 0u8);
    }
    assert(out@ =~= dos@ + Seq::new(gap, |j: int| 0u8));
    let ghost padded = out@;
    out.extend_from_slice(nt.as_slice());
    assert(out@ =~= padded + nt@);
    let ghost with_nt = out@;
    out.extend_from_slice(directory.as_slice());
    assert(out@ =~= with_nt + directory@);
    out
}

fn add_section(
    image: &Image,
    out: &mut Vec<u8>,
    cursor: usize,
    replaced: Option<(usize, &[u8])>,
    index: usize,
) -> (r: Result<(), UnpackError>)
    requires
        image.wf(),
        index < image.section_list().len(),
    ensures
        match within_memory(
            rebuilt_section(
                image.bytes(),
                old(out)@,
                cursor as int,
                replacement_of(replaced),
                index as int,
            ),
        ) {
            Ok(next) => r is Ok && final(out)@ == next && cursor + SECTION_HEADER_SIZE
                <= usize::MAX,
            Err(e) => r matches Err(f) && f == e,
        },
{
    proof {
        image.lemma_wf();
    }
    let ghost bytes = image.bytes();
    let ghost before = out@;
    let ghost section = image_sections(bytes)[index as int];
    assert(section == image.section_list()[index as int]@);
    let in_file = match image.section_bytes(index) {
        Ok(b) => b,
        Err(e) => {
            return Err(e);
        },
    };
    proof {
        lemma_section_file_range(section, bytes.len() as int);
    }
    let table = image.section_table();
    let record = slice_subrange(
        table.as_slice(),
        index * SECTION_HEADER_SIZE,
        index * SECTION_HEADER_SIZE + SECTION_HEADER_SIZE,
    );
    let ghost at = section_table_offset(bytes) + SECTION_HEADER_SIZE * index;
    assert(record@ =~= bytes.subrange(at, at + SECTION_HEADER_SIZE));
    let body: &[u8] = match replaced {
        Some((chosen, plain)) => if chosen == index {
            plain
        } else {
            in_file
        },
        None => in_file,
    };
    let start = image.sections()[index].pointer_to_raw_data as usize;
    assert(out.len() <= usize::MAX);
    assert(start == section.pointer_to_raw_data);
    assert(body@ == section_body(
        bytes,
        replacement_of(replaced),
        index as int,
        start as int,
        section.pointer_to_raw_data + section.size_of_raw_data,
    ));
    proof {
        lemma_written_at_len(before, cursor as int, record@);
        lemma_written_at_len(written_at(before, cursor as int, record@), start as int, body@);
    }
    match write_at(out, cursor, record) {
        Ok(_) => {},
        Err(e) => {
            return Err(e);
        },
    }
    write_at(out, start, body)
}

fn add_overlay(image: &Image, out: &mut Vec<u8>) -> (r: Result<(), UnpackError>)
    requires
        image.wf(),
        forall|k: int|
            0 <= k < image.section_list().len() ==> section_file_range(
                #[trigger] image_sections(image.bytes())[k],
                image.bytes().len() as int,
            ) is Some,
    ensures
        match within_memory(rebuilt_overlay(image.bytes(), old(out)@)) {
            Ok(next) => r is Ok && final(out)@ == next,
            Err(e) => r matches Err(f) && f == e,
        },
{
    proof {
        image.lemma_wf();
    }
    let ghost bytes = image.bytes();
    let data = image.data();
    let sections = image.sections();
    let count = sections.len();
    if count == 0 {
        return Err(UnpackError::Format);
    }
    let last = sections[count - 1];
    proof {
        let section = image_sections(bytes)[count - 1];
        assert(section == last@);
        lemma_section_file_range(section, bytes.len() as int);
    }
    let end = last.pointer_to_raw_data as usize + last.size_of_raw_data as usize;
    assert(out.len() <= usize::MAX);
    if end < data.len() {
        let overlay = slice_subrange(data, end, data.len());
        proof {
            lemma_written_at_len(out@, end as int, overlay@);
        }
        write_at(out, end, overlay)
    } else {
        Ok(())
    }
}

/// Assembles the unpacked file from a parsed one: its headers with `entry`
/// for the entry point and a zero checksum, its section table, the bytes of
/// each section at the offset they have in the file, those of the section
/// that `replaced` names taken from there, and what the file holds behind
/// its last section. Fails with `Format` where the bytes of a section are
/// not in the file, where the file has no section, and where the result is
/// more than a buffer can hold.
pub fn reconstruct(image: &Image, entry: u32, replaced: Option<(usize, &[u8])>) -> (r: Result<
    Vec<u8>,
    UnpackError,
>)
    requires
        image.wf(),
    ensures
        match within_memory(rebuilt(image.bytes(), entry, replacement_of(replaced))) {
            Ok(out) => r matches Ok(v) && v@ == out,
            Err(e) => r matches Err(f) && f == e,
        },
{
    proof {
        image.lemma_wf();
        reveal(rebuilt);
    }
    let ghost bytes = image.bytes();
    let ghost swap = replacement_of(replaced);
    let count = image.sections().len();
    let mut out = build_headers(image, entry);
    let ghost goal = within_memory(rebuilt(bytes, entry, swap));
    let mut cursor: usize = out.len();
    let mut i: usize = 0;
    while i < count
        invariant
            image.wf(),
            bytes == image.bytes(),
            swap == replacement_of(replaced),
            count == image.section_list().len(),
            count == section_count(bytes),
            i <= count,
            goal == within_memory(rebuilt(bytes, entry, swap)),
            goal == within_memory(rebuilt_from(bytes, out@, cursor as int, swap, i as int)),
            forall|k: int|
                0 <= k < i ==> section_file_range(
                    #[trigger] image_sections(bytes)[k],
                    bytes.len() as int,
                ) is Some,
        decreases count - i,
    {
        let ghost before = out@;
        proof {
            lemma_rebuilt_section_len(bytes, before, cursor as int, swap, i as int);
            match rebuilt_section(bytes, before, cursor as int, swap, i as int) {
                Ok(next) => {
                    lemma_rebuilt_from_len(bytes, next, cursor + SECTION_HEADER_SIZE, swap, i + 1);
                    assert(rebuilt_from(bytes, before, cursor as int, swap, i as int)
                        == rebuilt_from(bytes, next, cursor + SECTION_HEADER_SIZE, swap, i + 1));
                },
                Err(e) => {
                    assert(rebuilt_from(bytes, before, cursor as int, swap, i as int) == Err::<
                        Seq<u8>,
                        UnpackError,
                    >(e));
                },
            }
        }
        match add_section(image, &mut out, cursor, replaced, i) {
            Ok(_) => {},
            Err(e) => {
                return Err(e);
            },
        }
        cursor += SECTION_HEADER_SIZE;
        i += 1;
    }
    proof {
        lemma_rebuilt_overlay_len(bytes, out@);
    }
    match add_overlay(image, &mut out) {
        Ok(_) => Ok(out),
        Err(e) => Err(e),
    }
}

} // verus!
