//! The image handle, the header parser and the directory walker.
//!
//! The 16-byte header names the byte order, the TIFF magic, the offset of
//! the first IFD, the CR2 signature and version, and where the raw sensor
//! data begins. From the first IFD offset the walker follows each
//! directory's "next directory" pointer, decoding every tag table on the
//! way; an offset already visited ends the walk, so a looping chain
//! terminates.

use vstd::prelude::*;
use vstd::set_lib::{lemma_int_range, lemma_len_subset, set_int_range};
use vstd::slice::slice_subrange;

use crate::bytes::{le_value, lemma_le_value_bound, lemma_pow256_values, read_u16_at, read_u32_at};
use crate::error::{FormatMismatch, RawFileError, UnsupportedFeature};
use crate::tag::{decode_tag, spec_decode_tag, tag_result_view, DecodedTag, TagModel};

verus! {

/// Byte order of the container, declared by its first two bytes.
///
/// Only little-endian data is decoded; a big-endian marker is recognized and
/// rejected by the header parser.
#[derive(Clone, Copy, Debug, PartialEq, Eq, Structural)]
pub enum ByteOrder {
    /// `II` marker: every multi-byte field is little-endian.
    LittleEndian,
    /// `MM` marker: recognized, not supported.
    BigEndian,
}

impl Default for ByteOrder {
    /// Little-endian, the only order the decoder supports.
    fn default() -> (r: ByteOrder)
        ensures
            r == ByteOrder::LittleEndian,
    {
        ByteOrder::LittleEndian
    }
}

/// One decoded Image File Directory: its absolute offset in the file and
/// its decoded tag entries, in file order.
#[derive(Debug, PartialEq, Eq)]
pub struct Ifd {
    pub offset: u32,
    pub entries: Vec<DecodedTag>,
}

/// The mathematical shape of an [`Ifd`].
#[verifier::ext_equal]
pub ghost struct IfdModel {
    pub offset: u32,
    pub entries: Seq<TagModel>,
}

/// The views of a sequence of decoded tags.
pub open spec fn tags_view(s: Seq<DecodedTag>) -> Seq<TagModel> {
    s.map_values(|t: DecodedTag| t@)
}

impl View for Ifd {
    type V = IfdModel;

    open spec fn view(&self) -> IfdModel {
        IfdModel { offset: self.offset, entries: tags_view(self.entries@) }
    }
}

/// A fully decoded image: the detected byte order, the absolute offset of
/// the raw sensor data, and every directory reachable from the header.
#[derive(Debug, PartialEq, Eq)]
pub struct RawImage {
    pub byte_order: ByteOrder,
    pub raw_offset: u32,
    pub ifds: Vec<Ifd>,
}

/// The mathematical shape of a [`RawImage`].
#[verifier::ext_equal]
pub ghost struct ImageModel {
    pub byte_order: ByteOrder,
    pub raw_offset: u32,
    pub ifds: Seq<IfdModel>,
}

/// The views of a sequence of directories.
pub open spec fn ifds_view(s: Seq<Ifd>) -> Seq<IfdModel> {
    s.map_values(|d: Ifd| d@)
}

/// The offsets of a sequence of directory models, in the same order.
pub open spec fn dir_offsets(s: Seq<IfdModel>) -> Seq<u32> {
    s.map_values(|d: IfdModel| d.offset)
}

impl View for RawImage {
    type V = ImageModel;

    open spec fn view(&self) -> ImageModel {
        ImageModel {
            byte_order: self.byte_order,
            raw_offset: self.raw_offset,
            ifds: ifds_view(self.ifds@),
        }
    }
}

/// What the 16-byte header yields: the offset of the first IFD and the
/// absolute offset of the raw sensor data, or the first validation failure
/// in order — byte-order marker, TIFF magic, CR2 signature, CR2 version.
pub open spec fn spec_header(data: Seq<u8>) -> Result<(u32, u32), RawFileError> {
    if data.len() < 16 {
        Err(RawFileError::Seek(0))
    } else if !(data[0] == 0x49 && data[1] == 0x49) {
        if data[0] == 0x4d && data[1] == 0x4d {
            Err(RawFileError::NotImplemented(UnsupportedFeature::BigEndian))
        } else {
            Err(RawFileError::FileFormat(FormatMismatch::ByteOrderMarker(data[0], data[1])))
        }
    } else if le_value(data.subrange(2, 4)) != 0x2a {
        Err(
            RawFileError::FileFormat(
                FormatMismatch::TiffMagic(le_value(data.subrange(2, 4)) as u16),
            ),
        )
    } else if !(data[8] == 0x43 && data[9] == 0x52) {
        Err(RawFileError::FileFormat(FormatMismatch::Cr2Magic(data[8], data[9])))
    } else if !(data[10] == 2 && data[11] == 0) {
        Err(RawFileError::NotImplemented(UnsupportedFeature::Version(data[10], data[11])))
    } else {
        Ok((le_value(data.subrange(4, 8)) as u32, le_value(data.subrange(12, 16)) as u32))
    }
}

/// Reads and validates the 16-byte header at the start of the data.
///
/// On success returns the offset of the first IFD and the raw-data offset;
/// on the first mismatch, the error naming what did not match.
pub fn read_header(data: &[u8]) -> (r: Result<(u32, u32), RawFileError>)
    ensures
        r == spec_header(data@),
{
    if data.len() < 16 {
        return Err(RawFileError::Seek(0));
    }
    proof {
        lemma_le_value_bound(data@.subrange(2, 4));
        lemma_le_value_bound(data@.subrange(4, 8));
        lemma_le_value_bound(data@.subrange(12, 16));
        lemma_pow256_values();
    }
    let b0 = data[0];
    let b1 = data[1];
    if !(b0 == 0x49 && b1 == 0x49) {
        // 0x49 is ASCII `I`, 0x4d is ASCII `M`
        if b0 == 0x4d && b1 == 0x4d {
            return Err(RawFileError::NotImplemented(UnsupportedFeature::BigEndian));
        }
        return Err(RawFileError::FileFormat(FormatMismatch::ByteOrderMarker(b0, b1)));
    }
    let magic = read_u16_at(data, 2);
    if magic != 0x2a {
        return Err(RawFileError::FileFormat(FormatMismatch::TiffMagic(magic)));
    }
    let first_ifd = read_u32_at(data, 4);
    let c0 = data[8];
    let c1 = data[9];
    // 0x43 is ASCII `C`, 0x52 is ASCII `R`
    if !(c0 == 0x43 && c1 == 0x52) {
        return Err(RawFileError::FileFormat(FormatMismatch::Cr2Magic(c0, c1)));
    }
    let major = data[10];
    let minor = data[11];
    if !(major == 2 && minor == 0) {
        return Err(RawFileError::NotImplemented(UnsupportedFeature::Version(major, minor)));
    }
    let raw_offset = read_u32_at(data, 12);
    Ok((first_ifd, raw_offset))
}

/// The tag count of the directory at `off`: the 16-bit value its first two
/// bytes hold.
pub open spec fn spec_ifd_count(data: Seq<u8>, off: int) -> int
    recommends
        0 <= off,
        off + 2 <= data.len(),
{
    le_value(data.subrange(off, off + 2))
}

/// Where the directory's 4-byte "next directory" pointer sits: right after
/// its tag count and its tag table.
pub open spec fn spec_next_ptr_off(data: Seq<u8>, off: int) -> int {
    off + 2 + 12 * spec_ifd_count(data, off)
}

/// The "next directory" offset the directory at `off` records; zero ends
/// the chain.
pub open spec fn spec_next_offset(data: Seq<u8>, off: int) -> int
    recommends
        0 <= off,
        spec_next_ptr_off(data, off) + 4 <= data.len(),
{
    le_value(data.subrange(spec_next_ptr_off(data, off), spec_next_ptr_off(data, off) + 4))
}

/// The outcome of decoding the `j`th tag record of the directory at `off`:
/// the record's 12 bytes must lie inside the data, then the tag decoder
/// decides.
pub open spec fn spec_tag_at(data: Seq<u8>, off: int, j: int) -> Result<TagModel, RawFileError>
    recommends
        0 <= off,
        0 <= j,
{
    let rec_off = off + 2 + 12 * j;
    if rec_off + 12 <= data.len() {
        spec_decode_tag(data, data.subrange(rec_off, rec_off + 12))
    } else {
        Err(RawFileError::Seek(rec_off as u64))
    }
}

/// The decoded entries of tags `j .. n` of the directory at `off`.
///
/// In strict mode the first failing tag aborts the directory with its error;
/// otherwise a failing tag is skipped and decoding continues.
pub open spec fn spec_entries(data: Seq<u8>, off: int, n: int, j: int, strict: bool) -> Result<
    Seq<TagModel>,
    RawFileError,
>
    decreases n - j,
{
    if j >= n {
        Ok(Seq::empty())
    } else {
        match spec_tag_at(data, off, j) {
            Ok(t) => match spec_entries(data, off, n, j + 1, strict) {
                Ok(rest) => Ok(seq![t] + rest),
                Err(e) => Err(e),
            },
            Err(e) => if strict {
                Err(e)
            } else {
                spec_entries(data, off, n, j + 1, strict)
            },
        }
    }
}

/// Law: with tag skipping on, tag-level failures never surface — the
/// entries of a directory always resolve to a list, however malformed the
/// individual records are.
pub proof fn lemma_lenient_entries_ok(data: Seq<u8>, off: int, n: int, j: int)
    ensures
        spec_entries(data, off, n, j, false) is Ok,
    decreases n - j,
{
    if j < n {
        lemma_lenient_entries_ok(data, off, n, j + 1);
    }
}

/// The outcome of reading the whole directory at `off`: its tag count must
/// lie inside the data, its entries decode per `spec_entries` when tag
/// expansion is requested, and its "next directory" pointer must lie inside
/// the data.
pub open spec fn spec_ifd(data: Seq<u8>, off: u32, read_tags: bool, strict: bool) -> Result<
    IfdModel,
    RawFileError,
> {
    if off + 2 > data.len() {
        Err(RawFileError::Seek(off as u64))
    } else {
        let n = spec_ifd_count(data, off as int);
        let entries_r = if read_tags {
            spec_entries(data, off as int, n, 0, strict)
        } else {
            Ok(Seq::empty())
        };
        match entries_r {
            Err(e) => Err(e),
            Ok(entries) => {
                let p = spec_next_ptr_off(data, off as int);
                if p + 4 > data.len() {
                    Err(RawFileError::Seek(p as u64))
                } else {
                    Ok(IfdModel { offset: off, entries })
                }
            },
        }
    }
}

/// Reads the directory at `off`: its tag count, its decoded tag entries
/// (when `read_tags` asks for expansion), and its "next directory" pointer,
/// which is returned alongside the directory.
pub fn read_ifd(data: &[u8], off: u32, read_tags: bool, strict: bool) -> (r: Result<
    (Ifd, u32),
    RawFileError,
>)
    ensures
        r matches Ok(p) ==> spec_ifd(data@, off, read_tags, strict) == Ok::<
            IfdModel,
            RawFileError,
        >(p.0@) && p.1 == spec_next_offset(data@, off as int),
        r matches Err(e) ==> spec_ifd(data@, off, read_tags, strict) == Err::<
            IfdModel,
            RawFileError,
        >(e),
{
    let len64 = data.len() as u64;
    if off as u64 + 2 > len64 {
        return Err(RawFileError::Seek(off as u64));
    }
    proof {
        lemma_le_value_bound(data@.subrange(off as int, off as int + 2));
        lemma_pow256_values();
    }
    let n = read_u16_at(data, off as usize);
    let ghost gn: int = spec_ifd_count(data@, off as int);
    let mut entries: Vec<DecodedTag> = Vec::new();
    if read_tags {
        let mut j: u32 = 0;
        while j < n as u32
            invariant
                j <= n,
                n == gn,
                gn == spec_ifd_count(data@, off as int),
                off as u64 + 2 <= data@.len(),
                len64 == data@.len(),
                read_tags,
                ({
                    match spec_entries(data@, off as int, gn, j as int, strict) {
                        Ok(rest) => spec_entries(data@, off as int, gn, 0, strict) == Ok::<
                            Seq<TagModel>,
                            RawFileError,
                        >(tags_view(entries@) + rest),
                        Err(e) => spec_entries(data@, off as int, gn, 0, strict) == Err::<
                            Seq<TagModel>,
                            RawFileError,
                        >(e),
                    }
                }),
            decreases n - j,
        {
            let _dn = data.len();
            let rec_off64 = off as u64 + 2 + 12 * (j as u64);
            let outcome: Result<DecodedTag, RawFileError> = if rec_off64 + 12 <= len64 {
                let ro = rec_off64 as usize;
                let rec = slice_subrange(data, ro, ro + 12);
                decode_tag(data, rec)
            } else {
                Err(RawFileError::Seek(rec_off64))
            };
            proof {
                assert(tag_result_view(outcome) == spec_tag_at(data@, off as int, j as int));
            }
            match outcome {
                Ok(t) => {
                    let ghost pre = entries@;
                    entries.push(t);
                    proof {
                        assert(tags_view(entries@) =~= tags_view(pre).push(t@));
                        match spec_entries(data@, off as int, gn, j + 1, strict) {
                            Ok(rest) => {
                                assert(tags_view(pre).push(t@) + rest =~= tags_view(pre) + (seq![
                                    t@,
                                ] + rest));
                            },
                            Err(e) => {},
                        }
                    }
                },
                Err(e) => {
                    if strict {
                        proof {
                            assert(spec_entries(data@, off as int, gn, 0, strict) == Err::<
                                Seq<TagModel>,
                                RawFileError,
                            >(e));
                        }
                        return Err(e);
                    }
                },
            }
            j = j + 1;
        }
    }
    proof {
        assert(tags_view(entries@) + Seq::<TagModel>::empty() =~= tags_view(entries@));
        if !read_tags {
            assert(tags_view(entries@) =~= Seq::<TagModel>::empty());
        }
    }
    let p64 = off as u64 + 2 + 12 * (n as u64);
    if p64 + 4 > len64 {
        return Err(RawFileError::Seek(p64));
    }
    proof {
        lemma_le_value_bound(data@.subrange(p64 as int, p64 as int + 4));
        lemma_pow256_values();
    }
    let next = read_u32_at(data, p64 as usize);
    Ok((Ifd { offset: off, entries }, next))
}

/// The link from position `i` of a directory-offset walk to position
/// `i + 1`: the directory at `offs[i]` reads whole, its "next directory"
/// pointer is `offs[i + 1]`, nonzero, and not an offset already walked.
pub open spec fn spec_chain_link(
    data: Seq<u8>,
    offs: Seq<u32>,
    read_tags: bool,
    strict: bool,
    i: int,
) -> bool
    recommends
        0 <= i < offs.len() - 1,
{
    &&& spec_ifd(data, offs[i], read_tags, strict) is Ok
    &&& offs[i + 1] == spec_next_offset(data, offs[i] as int)
    &&& offs[i + 1] != 0
    &&& !offs.subrange(0, i + 1).contains(offs[i + 1])
}

/// A walk of the directory chain: it starts at the first-IFD offset the
/// header records, and each later offset is the previous directory's
/// nonzero, not-yet-visited "next directory" pointer.
pub open spec fn spec_chain_linked(
    data: Seq<u8>,
    offs: Seq<u32>,
    read_tags: bool,
    strict: bool,
) -> bool {
    &&& offs.len() >= 1
    &&& spec_header(data) matches Ok(h) && offs[0] == h.0
    &&& forall|i: int|
        0 <= i < offs.len() - 1 ==> #[trigger] spec_chain_link(data, offs, read_tags, strict, i)
}

/// A finished walk: the last directory reads whole and its "next directory"
/// pointer either is zero or points back at an offset already walked.
pub open spec fn spec_chain_complete(
    data: Seq<u8>,
    offs: Seq<u32>,
    read_tags: bool,
    strict: bool,
) -> bool
    recommends
        offs.len() >= 1,
{
    let last = offs[offs.len() - 1];
    &&& spec_ifd(data, last, read_tags, strict) is Ok
    &&& {
        let nx = spec_next_offset(data, last as int);
        nx == 0 || offs.contains(nx as u32)
    }
}

/// What a successfully decoded image states: the header read whole, the
/// directories are exactly a finished walk of the chain, and each one is
/// what the directory reader yields at its offset.
pub open spec fn spec_image_ok(
    data: Seq<u8>,
    img: ImageModel,
    read_tags: bool,
    strict: bool,
) -> bool {
    let offs = dir_offsets(img.ifds);
    &&& spec_header(data) matches Ok(h) && img.raw_offset == h.1
    &&& img.byte_order == ByteOrder::LittleEndian
    &&& spec_chain_linked(data, offs, read_tags, strict)
    &&& spec_chain_complete(data, offs, read_tags, strict)
    &&& forall|i: int|
        0 <= i < img.ifds.len() ==> #[trigger] spec_ifd(data, offs[i], read_tags, strict) == Ok::<
            IfdModel,
            RawFileError,
        >(img.ifds[i])
}

/// What a failed decode states: either the header itself failed with this
/// error, or some walk of the chain reaches a directory that fails with it.
pub open spec fn spec_decode_err(
    data: Seq<u8>,
    e: RawFileError,
    read_tags: bool,
    strict: bool,
) -> bool {
    ||| spec_header(data) == Err::<(u32, u32), RawFileError>(e)
    ||| exists|offs: Seq<u32>|
        #[trigger] spec_chain_linked(data, offs, read_tags, strict) && spec_ifd(
            data,
            offs[offs.len() - 1],
            read_tags,
            strict,
        ) == Err::<IfdModel, RawFileError>(e)
}

/// A sequence of distinct 32-bit values cannot be longer than the number of
/// 32-bit values there are.
proof fn lemma_distinct_u32_len(s: Seq<u32>)
    requires
        s.no_duplicates(),
    ensures
        s.len() <= 0x1_0000_0000,
{
    broadcast use vstd::seq_lib::group_seq_properties;

    let si = s.map_values(|x: u32| x as int);
    assert(si.no_duplicates()) by {
        assert forall|i: int, j: int|
            0 <= i < si.len() && 0 <= j < si.len() && i != j implies si[i] != si[j] by {
            assert(s[i] != s[j]);
        }
    }
    si.unique_seq_to_set();
    assert(si.to_set().subset_of(set_int_range(0, 0x1_0000_0000))) by {
        assert forall|x: int| si.to_set().contains(x) implies set_int_range(
            0,
            0x1_0000_0000,
        ).contains(x) by {
            assert(si.contains(x));
            let i = choose|i: int| 0 <= i < si.len() && si[i] == x;
            assert(0 <= s[i] < 0x1_0000_0000);
        }
    }
    lemma_int_range(0, 0x1_0000_0000);
    lemma_len_subset(si.to_set(), set_int_range(0, 0x1_0000_0000));
}

/// True when one of the directories gathered so far sits at offset `x`.
fn contains_offset(ifds: &Vec<Ifd>, x: u32) -> (b: bool)
    ensures
        b == dir_offsets(ifds_view(ifds@)).contains(x),
{
    let ghost offs = dir_offsets(ifds_view(ifds@));
    let mut i: usize = 0;
    while i < ifds.len()
        invariant
            i <= ifds.len(),
            offs == dir_offsets(ifds_view(ifds@)),
            forall|k: int| 0 <= k < i ==> offs[k] != x,
        decreases ifds.len() - i,
    {
        if ifds[i].offset == x {
            proof {
                assert(offs[i as int] == x);
            }
            return true;
        }
        i = i + 1;
    }
    proof {
        assert(forall|k: int| 0 <= k < offs.len() ==> offs[k] != x);
    }
    false
}

/// Decodes a whole CR2 container from its bytes: validates the header, then
/// walks the directory chain from the first IFD offset, decoding every tag
/// table, until a zero or already-visited "next directory" pointer ends the
/// walk.
///
/// In strict mode the first failing tag aborts the decode with its error;
/// otherwise failing tags are skipped and every readable tag is kept.
pub fn decode(data: &[u8], strict: bool) -> (r: Result<RawImage, RawFileError>)
    ensures
        r matches Ok(img) ==> spec_image_ok(data@, img@, true, strict),
        r matches Err(e) ==> spec_decode_err(data@, e, true, strict),
{
    let (first, raw) = match read_header(data) {
        Ok(p) => p,
        Err(e) => { return Err(e) },
    };
    let mut ifds: Vec<Ifd> = Vec::new();
    let mut cur: u32 = first;
    proof {
        assert(dir_offsets(ifds_view(ifds@)).push(cur) =~= seq![cur]);
    }
    loop
        invariant_except_break
            spec_header(data@) == Ok::<(u32, u32), RawFileError>((first, raw)),
            dir_offsets(ifds_view(ifds@)).push(cur).no_duplicates(),
            spec_chain_linked(data@, dir_offsets(ifds_view(ifds@)).push(cur), true, strict),
            forall|i: int|
                0 <= i < ifds@.len() ==> #[trigger] spec_ifd(
                    data@,
                    dir_offsets(ifds_view(ifds@))[i],
                    true,
                    strict,
                ) == Ok::<IfdModel, RawFileError>(ifds_view(ifds@)[i]),
        ensures
            spec_header(data@) == Ok::<(u32, u32), RawFileError>((first, raw)),
            spec_chain_linked(data@, dir_offsets(ifds_view(ifds@)), true, strict),
            spec_chain_complete(data@, dir_offsets(ifds_view(ifds@)), true, strict),
            forall|i: int|
                0 <= i < ifds@.len() ==> #[trigger] spec_ifd(
                    data@,
                    dir_offsets(ifds_view(ifds@))[i],
                    true,
                    strict,
                ) == Ok::<IfdModel, RawFileError>(ifds_view(ifds@)[i]),
        decreases 0x1_0000_0001 - ifds@.len(),
    {
        proof {
            lemma_distinct_u32_len(dir_offsets(ifds_view(ifds@)).push(cur));
        }
        let ghost pre_offs = dir_offsets(ifds_view(ifds@));
        match read_ifd(data, cur, true, strict) {
            Err(e) => {
                proof {
                    assert(spec_chain_linked(data@, pre_offs.push(cur), true, strict) && spec_ifd(
                        data@,
                        pre_offs.push(cur)[pre_offs.push(cur).len() - 1],
                        true,
                        strict,
                    ) == Err::<IfdModel, RawFileError>(e));
                }
                return Err(e);
            },
            Ok((ifd, next)) => {
                let ghost pre = ifds@;
                ifds.push(ifd);
                proof {
                    assert(ifds_view(ifds@) =~= ifds_view(pre).push(ifd@));
                    assert(dir_offsets(ifds_view(ifds@)) =~= pre_offs.push(cur));
                }
                if next == 0 {
                    break ;
                }
                let revisit = contains_offset(&ifds, next);
                if revisit {
                    break ;
                }
                proof {
                    assert(dir_offsets(ifds_view(ifds@)).push(next).subrange(
                        0,
                        dir_offsets(ifds_view(ifds@)).len() as int,
                    ) =~= dir_offsets(ifds_view(ifds@)));
                    assert(spec_chain_link(
                        data@,
                        dir_offsets(ifds_view(ifds@)).push(next),
                        true,
                        strict,
                        dir_offsets(ifds_view(ifds@)).len() - 1,
                    ));
                    assert forall|i: int|
                        0 <= i < dir_offsets(ifds_view(ifds@)).push(next).len()
                            - 1 implies #[trigger] spec_chain_link(
                        data@,
                        dir_offsets(ifds_view(ifds@)).push(next),
                        true,
                        strict,
                        i,
                    ) by {
                        if i < pre_offs.len() {
                            assert(spec_chain_link(data@, pre_offs.push(cur), true, strict, i));
                            assert(pre_offs.push(cur).subrange(0, i + 1) =~= dir_offsets(
                                ifds_view(ifds@),
                            ).push(next).subrange(0, i + 1));
                        }
                    }
                }
                cur = next;
            },
        }
    }
    Ok(RawImage { byte_order: ByteOrder::LittleEndian, raw_offset: raw, ifds })
}

/// Two walks of the same data agree at every position they share.
proof fn lemma_chain_agree(
    data: Seq<u8>,
    a: Seq<u32>,
    b: Seq<u32>,
    read_tags: bool,
    strict: bool,
    i: int,
)
    requires
        spec_chain_linked(data, a, read_tags, strict),
        spec_chain_linked(data, b, read_tags, strict),
        0 <= i < a.len(),
        i < b.len(),
    ensures
        a[i] == b[i],
    decreases i,
{
    if i > 0 {
        lemma_chain_agree(data, a, b, read_tags, strict, i - 1);
        assert(spec_chain_link(data, a, read_tags, strict, i - 1));
        assert(spec_chain_link(data, b, read_tags, strict, i - 1));
    }
}

/// A finished walk cannot be extended: every walk of the same data is at
/// most as long.
proof fn lemma_chain_no_extension(
    data: Seq<u8>,
    a: Seq<u32>,
    b: Seq<u32>,
    read_tags: bool,
    strict: bool,
)
    requires
        spec_chain_linked(data, a, read_tags, strict),
        spec_chain_complete(data, a, read_tags, strict),
        spec_chain_linked(data, b, read_tags, strict),
    ensures
        b.len() <= a.len(),
{
    if b.len() > a.len() {
        let k = a.len() - 1;
        assert forall|i: int| 0 <= i < a.len() implies a[i] == b[i] by {
            lemma_chain_agree(data, a, b, read_tags, strict, i);
        }
        assert(spec_chain_link(data, b, read_tags, strict, k));
        let nx = spec_next_offset(data, b[k] as int);
        assert(b[k] == a[k]);
        assert(nx as u32 == b[k + 1]);
        assert(a.contains(nx as u32));
        let w = choose|w: int| 0 <= w < a.len() && a[w] == nx as u32;
        assert(b.subrange(0, k + 1)[w] == a[w]);
        assert(b.subrange(0, k + 1).contains(b[k + 1]));
        assert(false);
    }
}

/// Law: the finished walk of given data is unique — any two walks that both
/// start at the header's first-IFD offset and both end at a zero or
/// already-visited pointer are the same walk.
pub proof fn lemma_chain_unique(
    data: Seq<u8>,
    a: Seq<u32>,
    b: Seq<u32>,
    read_tags: bool,
    strict: bool,
)
    requires
        spec_chain_linked(data, a, read_tags, strict),
        spec_chain_complete(data, a, read_tags, strict),
        spec_chain_linked(data, b, read_tags, strict),
        spec_chain_complete(data, b, read_tags, strict),
    ensures
        a == b,
{
    lemma_chain_no_extension(data, a, b, read_tags, strict);
    lemma_chain_no_extension(data, b, a, read_tags, strict);
    assert forall|i: int| 0 <= i < a.len() implies a[i] == b[i] by {
        lemma_chain_agree(data, a, b, read_tags, strict, i);
    }
    assert(a =~= b);
}

/// Law: decoding is deterministic — two successfully decoded images of the
/// same bytes are structurally identical, directory for directory and tag
/// for tag.
pub proof fn lemma_decode_deterministic(
    data: Seq<u8>,
    m1: ImageModel,
    m2: ImageModel,
    read_tags: bool,
    strict: bool,
)
    requires
        spec_image_ok(data, m1, read_tags, strict),
        spec_image_ok(data, m2, read_tags, strict),
    ensures
        m1 == m2,
{
    let o1 = dir_offsets(m1.ifds);
    let o2 = dir_offsets(m2.ifds);
    lemma_chain_unique(data, o1, o2, read_tags, strict);
    assert forall|i: int| 0 <= i < m1.ifds.len() implies m1.ifds[i] == m2.ifds[i] by {
        assert(spec_ifd(data, o1[i], read_tags, strict) == Ok::<IfdModel, RawFileError>(
            m1.ifds[i],
        ));
        assert(spec_ifd(data, o2[i], read_tags, strict) == Ok::<IfdModel, RawFileError>(
            m2.ifds[i],
        ));
    }
    assert(m1.ifds =~= m2.ifds);
    assert(m1 =~= m2);
}

/// Law: success and failure exclude each other — data that decodes to an
/// image admits no decode error.
pub proof fn lemma_decode_exclusive(data: Seq<u8>, m: ImageModel, read_tags: bool, strict: bool)
    requires
        spec_image_ok(data, m, read_tags, strict),
    ensures
        forall|e: RawFileError| !spec_decode_err(data, e, read_tags, strict),
{
    let offs = dir_offsets(m.ifds);
    assert forall|e: RawFileError| !spec_decode_err(data, e, read_tags, strict) by {
        if spec_decode_err(data, e, read_tags, strict) {
            if spec_header(data) == Err::<(u32, u32), RawFileError>(e) {
                assert(false);
            } else {
                let offs_e = choose|o: Seq<u32>|
                    #[trigger] spec_chain_linked(data, o, read_tags, strict) && spec_ifd(
                        data,
                        o[o.len() - 1],
                        read_tags,
                        strict,
                    ) == Err::<IfdModel, RawFileError>(e);
                lemma_chain_no_extension(data, offs, offs_e, read_tags, strict);
                let k = offs_e.len() - 1;
                lemma_chain_agree(data, offs_e, offs, read_tags, strict, k);
                assert(spec_ifd(data, offs[k], read_tags, strict) == Ok::<
                    IfdModel,
                    RawFileError,
                >(m.ifds[k]));
                assert(false);
            }
        }
    }
}

} // verus!
