//! What unpacking leaves as it was, and where it puts what it has changed.
//! In a file whose sections have their bytes behind the headers and the
//! section table, the unpacked file holds the headers but for the two
//! patched fields, every record of the section table, the bytes of every
//! section that was not decrypted, the decrypted bytes, and what lies behind
//! the last section, each at the offset it has in the file, but for what the
//! decrypted bytes, which are longer than their section, or a section that
//! shares their place have taken.

use crate::bytes::le_word;
use crate::error::UnpackError;
use crate::image::{
    directory_count, headers_valid, image_sections, lemma_section_file_range, nt_offset,
    section_count, section_file_range, section_table_offset, SectionInfo, DATA_DIRECTORY_SIZE,
    DOS_HEADER_SIZE, NT_HEADERS_SIZE, SECTION_HEADER_SIZE,
};
use crate::rebuild::{
    lemma_rebuilt_headers, rebuilt, rebuilt_from, rebuilt_headers, rebuilt_overlay,
    rebuilt_section, rebuilt_sections, section_body, written_at, Replacement, CHECKSUM_AT,
    ENTRY_POINT_AT,
};
use vstd::prelude::*;

verus! {

/// Length of the headers of the unpacked file, up to the section table.
pub open spec fn headers_len(image: Seq<u8>) -> int {
    let nt = nt_offset(image);
    (if nt > DOS_HEADER_SIZE {
        nt
    } else {
        DOS_HEADER_SIZE as int
    }) + NT_HEADERS_SIZE + DATA_DIRECTORY_SIZE * directory_count(image)
}

/// End of the section table of the unpacked file.
pub open spec fn table_end(image: Seq<u8>) -> int {
    headers_len(image) + SECTION_HEADER_SIZE * section_count(image)
}

/// Whether the bytes of every section are in the file, behind the headers
/// and the section table of the unpacked file.
pub open spec fn laid_out(image: Seq<u8>) -> bool {
    let sections = image_sections(image);
    forall|i: int|
        0 <= i < sections.len() ==> section_file_range(
            #[trigger] sections[i],
            image.len() as int,
        ) is Some && sections[i].pointer_to_raw_data >= table_end(image)
}

/// Whether the file holds a byte of `section` at offset `p`.
pub open spec fn section_covers(section: SectionInfo, p: int) -> bool {
    section.pointer_to_raw_data <= p < section.pointer_to_raw_data + section.size_of_raw_data
}

/// Whether no section behind `from` and in front of `to` in the table has a
/// byte at offset `p`.
pub open spec fn uncovered(image: Seq<u8>, from: int, to: int, p: int) -> bool {
    forall|m: int| from < m < to ==> !section_covers(#[trigger] image_sections(image)[m], p)
}

/// Index of the replaced section, -1 where none is replaced.
pub open spec fn replaced_index(replaced: Option<Replacement>) -> int {
    match replaced {
        Some(r) => r.index,
        None => -1,
    }
}

/// Whether section `j` is the one that gets other bytes.
pub open spec fn is_replaced(replaced: Option<Replacement>, j: int) -> bool {
    replaced is Some && replaced_index(replaced) == j
}

/// Whether the bytes that replace a section reach offset `p`.
pub open spec fn replaced_covers(image: Seq<u8>, replaced: Option<Replacement>, p: int) -> bool {
    match replaced {
        Some(r) => 0 <= r.index < section_count(image) && image_sections(
            image,
        )[r.index].pointer_to_raw_data <= p < image_sections(image)[r.index].pointer_to_raw_data
            + r.bytes.len(),
        None => false,
    }
}

/// Whether what the file holds behind its last section reaches offset `p`.
pub open spec fn overlay_covers(image: Seq<u8>, p: int) -> bool {
    let last = image_sections(image)[section_count(image) - 1];
    last.pointer_to_raw_data + last.size_of_raw_data <= p < image.len()
}

/// The longest that the unpacked file can be: as long as the file, or as
/// far as the bytes reach that replace a section.
pub open spec fn len_bound(image: Seq<u8>, replaced: Option<Replacement>) -> int {
    match replaced {
        Some(r) => if 0 <= r.index < section_count(image) && image_sections(
            image,
        )[r.index].pointer_to_raw_data + r.bytes.len() > image.len() {
            image_sections(image)[r.index].pointer_to_raw_data + r.bytes.len()
        } else {
            image.len() as int
        },
        None => image.len() as int,
    }
}

/// Byte `t` of the headers stands in `out`.
pub open spec fn header_byte_kept(image: Seq<u8>, entry: u32, out: Seq<u8>, t: int) -> bool {
    t < out.len() && out[t] == rebuilt_headers(image, entry)[t]
}

/// Byte `t` of record `k` of the section table stands in `out`, in the table
/// that follows the headers.
pub open spec fn record_byte_kept(image: Seq<u8>, out: Seq<u8>, k: int, t: int) -> bool {
    let to = headers_len(image) + SECTION_HEADER_SIZE * k + t;
    to < out.len() && out[to] == image[section_table_offset(image) + SECTION_HEADER_SIZE * k + t]
}

/// Byte `t` of section `j` stands in `out` at the offset it has in the file.
pub open spec fn section_byte_kept(image: Seq<u8>, out: Seq<u8>, j: int, t: int) -> bool {
    let at = image_sections(image)[j].pointer_to_raw_data + t;
    at < out.len() && out[at] == image[at]
}

/// Byte `t` of the bytes that replace a section stands in `out`, counted
/// from the offset that the section has in the file.
pub open spec fn replaced_byte_kept(
    image: Seq<u8>,
    replaced: Option<Replacement>,
    out: Seq<u8>,
    t: int,
) -> bool {
    let at = image_sections(image)[replaced_index(replaced)].pointer_to_raw_data + t;
    at < out.len() && out[at] == replaced->0.bytes[t]
}

/// Whether `out` holds the headers, the records of the first `k` sections,
/// the bytes of those of them that are not replaced, but for where the
/// replacing bytes were written over them later, and the replacing bytes
/// where no later one of the `k` sections has its own; and is no longer
/// than `len_bound`.
pub open spec fn kept_up_to(
    image: Seq<u8>,
    entry: u32,
    replaced: Option<Replacement>,
    out: Seq<u8>,
    k: int,
) -> bool {
    let sections = image_sections(image);
    let r = replaced_index(replaced);
    &&& out.len() <= len_bound(image, replaced)
    &&& forall|t: int| 0 <= t < headers_len(image) ==> #[trigger] header_byte_kept(image, entry, out, t)
    &&& forall|m: int, t: int|
        0 <= m < k && 0 <= t < SECTION_HEADER_SIZE ==> #[trigger] record_byte_kept(image, out, m, t)
    &&& forall|j: int, t: int|
        0 <= j < k && !is_replaced(replaced, j) && 0 <= t < sections[j].size_of_raw_data && !(j < r
            < k && replaced_covers(image, replaced, sections[j].pointer_to_raw_data + t))
            ==> #[trigger] section_byte_kept(image, out, j, t)
    &&& forall|t: int|
        replaced is Some && 0 <= r < k && 0 <= t < replaced->0.bytes.len() && uncovered(
            image,
            r,
            k,
            sections[r].pointer_to_raw_data + t,
        ) ==> #[trigger] replaced_byte_kept(image, replaced, out, t)
}

/// Whether the unpacked file `out` holds all that unpacking keeps and puts
/// in place: what `kept_up_to` says of all sections, with the replacing
/// bytes only where what lies behind the last section has not been written
/// over them; and that overlay itself.
pub open spec fn kept(image: Seq<u8>, entry: u32, replaced: Option<Replacement>, out: Seq<u8>) -> bool {
    let sections = image_sections(image);
    let count = section_count(image);
    let r = replaced_index(replaced);
    let end = sections[count - 1].pointer_to_raw_data + sections[count - 1].size_of_raw_data;
    &&& out.len() <= len_bound(image, replaced)
    &&& forall|t: int| 0 <= t < headers_len(image) ==> #[trigger] header_byte_kept(image, entry, out, t)
    &&& forall|m: int, t: int|
        0 <= m < count && 0 <= t < SECTION_HEADER_SIZE ==> #[trigger] record_byte_kept(
            image,
            out,
            m,
            t,
        )
    &&& forall|j: int, t: int|
        0 <= j < count && !is_replaced(replaced, j) && 0 <= t < sections[j].size_of_raw_data && !(j
            < r && replaced_covers(image, replaced, sections[j].pointer_to_raw_data + t))
            ==> #[trigger] section_byte_kept(image, out, j, t)
    &&& forall|t: int|
        replaced is Some && 0 <= r < count && 0 <= t < replaced->0.bytes.len() && uncovered(
            image,
            r,
            count,
            sections[r].pointer_to_raw_data + t,
        ) && !overlay_covers(image, sections[r].pointer_to_raw_data + t)
            ==> #[trigger] replaced_byte_kept(image, replaced, out, t)
    &&& end < image.len() ==> out.len() >= image.len() && out.subrange(end, image.len() as int)
        == image.subrange(end, image.len() as int)
}

/// Adding one section keeps what stood before it, but for what its bytes
/// take, and puts its record and its bytes in place.
proof fn lemma_section_kept(
    image: Seq<u8>,
    entry: u32,
    replaced: Option<Replacement>,
    out: Seq<u8>,
    from: int,
)
    requires
        headers_valid(image),
        laid_out(image),
        0 <= from < section_count(image),
        kept_up_to(image, entry, replaced, out, from),
    ensures
        rebuilt_section(
            image,
            out,
            headers_len(image) + SECTION_HEADER_SIZE * from,
            replaced,
            from,
        ) matches Ok(next) && kept_up_to(image, entry, replaced, next, from + 1),
{
    let sections = image_sections(image);
    let r = replaced_index(replaced);
    let section = sections[from];
    let cursor = headers_len(image) + SECTION_HEADER_SIZE * from;
    lemma_section_file_range(section, image.len() as int);
    let start = section.pointer_to_raw_data as int;
    let end = section.pointer_to_raw_data + section.size_of_raw_data;
    let at = section_table_offset(image) + SECTION_HEADER_SIZE * from;
    let record = image.subrange(at, at + SECTION_HEADER_SIZE);
    let body = section_body(image, replaced, from, start, end);
    let with_record = written_at(out, cursor, record);
    let next = written_at(with_record, start, body);
    assert(rebuilt_section(image, out, cursor, replaced, from) == Ok::<Seq<u8>, UnpackError>(next));
    assert(start >= table_end(image));
    assert(cursor + SECTION_HEADER_SIZE <= table_end(image)) by (nonlinear_arith)
        requires
            cursor == headers_len(image) + SECTION_HEADER_SIZE * from,
            table_end(image) == headers_len(image) + SECTION_HEADER_SIZE * section_count(image),
            from < section_count(image),
    ;
    assert(with_record.len() <= len_bound(image, replaced));
    assert(next.len() <= len_bound(image, replaced));
    assert forall|t: int| 0 <= t < headers_len(image) implies #[trigger] header_byte_kept(
        image,
        entry,
        next,
        t,
    ) by {
        assert(header_byte_kept(image, entry, out, t));
    }
    assert forall|m: int, t: int|
        0 <= m < from + 1 && 0 <= t < SECTION_HEADER_SIZE implies #[trigger] record_byte_kept(
        image,
        next,
        m,
        t,
    ) by {
        let to = headers_len(image) + SECTION_HEADER_SIZE * m + t;
        assert(to < table_end(image)) by (nonlinear_arith)
            requires
                to == headers_len(image) + SECTION_HEADER_SIZE * m + t,
                table_end(image) == headers_len(image) + SECTION_HEADER_SIZE * section_count(
                    image,
                ),
                m < section_count(image),
                t < SECTION_HEADER_SIZE,
        ;
        if m < from {
            assert(record_byte_kept(image, out, m, t));
        } else {
            assert(with_record[cursor + t] == record[t]);
        }
    }
    assert forall|j: int, t: int|
        0 <= j < from + 1 && !is_replaced(replaced, j) && 0 <= t < sections[j].size_of_raw_data
            && !(j < r < from + 1 && replaced_covers(
            image,
            replaced,
            sections[j].pointer_to_raw_data + t,
        )) implies #[trigger] section_byte_kept(image, next, j, t) by {
        let p = sections[j].pointer_to_raw_data + t;
        assert(section_file_range(sections[j], image.len() as int) is Some);
        lemma_section_file_range(sections[j], image.len() as int);
        if j < from {
            assert(section_byte_kept(image, out, j, t));
            if start <= p < start + body.len() {
                assert(from != r);
                assert(next[p] == body[p - start]);
            }
        } else {
            assert(body == image.subrange(start, end));
            assert(next[start + t] == body[t]);
        }
    }
    assert forall|t: int|
        replaced is Some && 0 <= r < from + 1 && 0 <= t < replaced->0.bytes.len() && uncovered(
            image,
            r,
            from + 1,
            sections[r].pointer_to_raw_data + t,
        ) implies #[trigger] replaced_byte_kept(image, replaced, next, t) by {
        let p = sections[r].pointer_to_raw_data + t;
        assert(section_file_range(sections[r], image.len() as int) is Some);
        if r < from {
            assert(uncovered(image, r, from, p));
            assert(replaced_byte_kept(image, replaced, out, t));
            assert(!section_covers(sections[from], p));
        } else {
            assert(next[start + t] == body[t]);
        }
    }
}

/// Adding the sections from `from` on keeps what stood before them, but for
/// what their bytes take, and puts their records and bytes in place.
proof fn lemma_sections_kept(
    image: Seq<u8>,
    entry: u32,
    replaced: Option<Replacement>,
    out: Seq<u8>,
    from: int,
)
    requires
        headers_valid(image),
        laid_out(image),
        0 <= from <= section_count(image),
        kept_up_to(image, entry, replaced, out, from),
    ensures
        rebuilt_sections(
            image,
            out,
            headers_len(image) + SECTION_HEADER_SIZE * from,
            replaced,
            from,
        ) matches Ok(done) && kept_up_to(image, entry, replaced, done, section_count(image)),
    decreases section_count(image) - from,
{
    if from < section_count(image) {
        lemma_section_kept(image, entry, replaced, out, from);
        let next = rebuilt_section(
            image,
            out,
            headers_len(image) + SECTION_HEADER_SIZE * from,
            replaced,
            from,
        )->Ok_0;
        lemma_sections_kept(image, entry, replaced, next, from + 1);
    }
}

/// In a file that has a section, and the bytes of every section behind the
/// headers and the section table, assembly succeeds, and the unpacked file
/// holds what `kept` says.
pub proof fn lemma_rebuilt_keeps(image: Seq<u8>, entry: u32, replaced: Option<Replacement>)
    requires
        headers_valid(image),
        laid_out(image),
        section_count(image) > 0,
    ensures
        rebuilt(image, entry, replaced) matches Ok(out) && kept(image, entry, replaced, out),
{
    reveal(rebuilt);
    let headers = rebuilt_headers(image, entry);
    let count = section_count(image);
    let sections = image_sections(image);
    let r = replaced_index(replaced);
    lemma_rebuilt_headers(image, entry);
    assert(headers.len() == headers_len(image));
    assert(section_file_range(sections[0], image.len() as int) is Some);
    lemma_section_file_range(sections[0], image.len() as int);
    assert(headers.len() <= image.len());
    assert forall|t: int| 0 <= t < headers_len(image) implies #[trigger] header_byte_kept(
        image,
        entry,
        headers,
        t,
    ) by {}
    lemma_sections_kept(image, entry, replaced, headers, 0);
    let built = rebuilt_sections(image, headers, headers_len(image), replaced, 0)->Ok_0;
    let last = sections[count - 1];
    assert(section_file_range(last, image.len() as int) is Some);
    lemma_section_file_range(last, image.len() as int);
    let end = last.pointer_to_raw_data + last.size_of_raw_data;
    let out = rebuilt_overlay(image, built)->Ok_0;
    assert(rebuilt_from(image, headers, headers.len() as int, replaced, 0) == Ok::<
        Seq<u8>,
        UnpackError,
    >(out));
    assert(end >= table_end(image));
    if end < image.len() {
        let overlay = image.subrange(end, image.len() as int);
        assert(out == written_at(built, end, overlay));
        assert(out.subrange(end, image.len() as int) =~= overlay);
    } else {
        assert(out == built);
    }
    assert forall|t: int| 0 <= t < headers_len(image) implies #[trigger] header_byte_kept(
        image,
        entry,
        out,
        t,
    ) by {
        assert(header_byte_kept(image, entry, built, t));
    }
    assert forall|m: int, t: int|
        0 <= m < count && 0 <= t < SECTION_HEADER_SIZE implies #[trigger] record_byte_kept(
        image,
        out,
        m,
        t,
    ) by {
        let to = headers_len(image) + SECTION_HEADER_SIZE * m + t;
        assert(to < table_end(image)) by (nonlinear_arith)
            requires
                to == headers_len(image) + SECTION_HEADER_SIZE * m + t,
                table_end(image) == headers_len(image) + SECTION_HEADER_SIZE * count,
                m < count,
                t < SECTION_HEADER_SIZE,
        ;
        assert(record_byte_kept(image, built, m, t));
    }
    assert forall|j: int, t: int|
        0 <= j < count && !is_replaced(replaced, j) && 0 <= t < sections[j].size_of_raw_data && !(j
            < r && replaced_covers(
            image,
            replaced,
            sections[j].pointer_to_raw_data + t,
        )) implies #[trigger] section_byte_kept(image, out, j, t) by {
        let p = sections[j].pointer_to_raw_data + t;
        assert(section_file_range(sections[j], image.len() as int) is Some);
        lemma_section_file_range(sections[j], image.len() as int);
        assert(section_byte_kept(image, built, j, t));
    }
    assert forall|t: int|
        replaced is Some && 0 <= r < count && 0 <= t < replaced->0.bytes.len() && uncovered(
            image,
            r,
            count,
            sections[r].pointer_to_raw_data + t,
        ) && !overlay_covers(
            image,
            sections[r].pointer_to_raw_data + t,
        ) implies #[trigger] replaced_byte_kept(image, replaced, out, t) by {
        assert(replaced_byte_kept(image, replaced, built, t));
    }
}

/// In such a file the unpacked file declares `entry` for its entry point and
/// zero for its checksum.
pub proof fn lemma_rebuilt_entry_point(image: Seq<u8>, entry: u32, replaced: Option<Replacement>)
    requires
        headers_valid(image),
        laid_out(image),
        section_count(image) > 0,
    ensures
        rebuilt(image, entry, replaced) matches Ok(out) && ({
            let at = headers_len(image) - NT_HEADERS_SIZE - DATA_DIRECTORY_SIZE * directory_count(
                image,
            );
            le_word(out, at + ENTRY_POINT_AT) == entry && le_word(out, at + CHECKSUM_AT) == 0
        }),
{
    lemma_rebuilt_keeps(image, entry, replaced);
    lemma_rebuilt_headers(image, entry);
    let out = rebuilt(image, entry, replaced)->Ok_0;
    let headers = rebuilt_headers(image, entry);
    let at = headers_len(image) - NT_HEADERS_SIZE - DATA_DIRECTORY_SIZE * directory_count(image);
    assert forall|t: int| 0 <= t < headers_len(image) implies out[t] == headers[t] by {
        assert(header_byte_kept(image, entry, out, t));
    }
    assert(out[at + ENTRY_POINT_AT] == headers[at + ENTRY_POINT_AT]);
    assert(out[at + ENTRY_POINT_AT + 1] == headers[at + ENTRY_POINT_AT + 1]);
    assert(out[at + ENTRY_POINT_AT + 2] == headers[at + ENTRY_POINT_AT + 2]);
    assert(out[at + ENTRY_POINT_AT + 3] == headers[at + ENTRY_POINT_AT + 3]);
    assert(out[at + CHECKSUM_AT] == headers[at + CHECKSUM_AT]);
    assert(out[at + CHECKSUM_AT + 1] == headers[at + CHECKSUM_AT + 1]);
    assert(out[at + CHECKSUM_AT + 2] == headers[at + CHECKSUM_AT + 2]);
    assert(out[at + CHECKSUM_AT + 3] == headers[at + CHECKSUM_AT + 3]);
}

} // verus!
