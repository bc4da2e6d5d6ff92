//! The compressed file: a fixed header, then the coder's payload.

use vstd::bytes::{u32_from_le_bytes, u32_to_le_bytes, u64_from_le_bytes, u64_to_le_bytes};
use vstd::prelude::*;
use crate::text;
use crate::coders;
use vstd::slice::slice_subrange;

use crate::coders::{crc32, hex_digits, join_parts, CoderType};
use crate::text::{decimal_of, push_chars, push_text, string_of};

verus! {

/// First four bytes of a compressed file, read as a little-endian number.
pub const MAGIC: u32 = 0x5a505447;

/// Newest file version.
pub const VERSION: u8 = 2;

/// Number of symbols of the byte models.
pub const VOCAB_SIZE: usize = 256;

/// Number of header bytes.
pub const HEADER_SIZE: usize = 18;

/// Header of a compressed file.
#[derive(Clone, Copy, Debug, PartialEq, Eq)]
pub struct Header {
    /// Format identification.
    pub magic: u32,
    /// Format version.
    pub version: u8,
    /// 0 for arithmetic coding, 1 for rANS.
    pub coder: u8,
    /// Number of bytes before compression.
    pub original_len: u64,
    /// Checksum of the bytes before compression.
    pub crc32: u32,
}

/// Why a compressed file is refused.
#[derive(Clone, Copy, Debug, PartialEq, Eq, Structural)]
pub enum ContainerError {
    /// The file ends too early.
    UnexpectedEnd,
    /// It begins with another number.
    InvalidMagic(u32),
    /// It is newer than this reader.
    UnsupportedVersion(u8),
    /// No block count.
    RansTooShort,
    /// A block's length is missing.
    TruncatedBlockHeader,
    /// A block's bytes are missing.
    TruncatedBlockData,
    /// The checksum differs: expected, actual.
    CrcMismatch(u32, u32),
}

/// Bytes of a header.
pub open spec fn header_bytes(h: Header) -> Seq<u8> {
    vstd::bytes::spec_u32_to_le_bytes(h.magic) + (seq![h.version, h.coder] + (
    vstd::bytes::spec_u64_to_le_bytes(h.original_len) + vstd::bytes::spec_u32_to_le_bytes(
        h.crc32,
    )))
}

/// Header at the front of `b`.
pub open spec fn header_at_front(b: Seq<u8>) -> Result<Header, ContainerError> {
    if b.len() < 4 {
        Err(ContainerError::UnexpectedEnd)
    } else {
        let magic = vstd::bytes::spec_u32_from_le_bytes(b.subrange(0, 4));
        if magic != MAGIC {
            Err(ContainerError::InvalidMagic(magic))
        } else if b.len() < 5 {
            Err(ContainerError::UnexpectedEnd)
        } else if b[4] > VERSION {
            Err(ContainerError::UnsupportedVersion(b[4]))
        } else if b.len() < 18 {
            Err(ContainerError::UnexpectedEnd)
        } else {
            Ok(
                Header {
                    magic,
                    version: b[4],
                    coder: b[5],
                    original_len: vstd::bytes::spec_u64_from_le_bytes(b.subrange(6, 14)),
                    crc32: vstd::bytes::spec_u32_from_le_bytes(b.subrange(14, 18)),
                },
            )
        }
    }
}

/// A header that a reader accepts is read back as it was written.
pub proof fn law_header_round_trip(h: Header, payload: Seq<u8>)
    requires
        h.magic == MAGIC,
        h.version <= VERSION,
    ensures
        header_bytes(h).len() == HEADER_SIZE,
        header_at_front(header_bytes(h) + payload) == Ok::<Header, ContainerError>(h),
        (header_bytes(h) + payload).skip(HEADER_SIZE as int) == payload,
{
    vstd::bytes::lemma_auto_spec_u32_to_from_le_bytes();
    vstd::bytes::lemma_auto_spec_u64_to_from_le_bytes();
    let b = header_bytes(h) + payload;
    assert(b.subrange(0, 4) =~= vstd::bytes::spec_u32_to_le_bytes(h.magic));
    assert(b[4] == h.version);
    assert(b[5] == h.coder);
    assert(b.subrange(6, 14) =~= vstd::bytes::spec_u64_to_le_bytes(h.original_len));
    assert(b.subrange(14, 18) =~= vstd::bytes::spec_u32_to_le_bytes(h.crc32));
    assert(b.skip(18) =~= payload);
}

/// Appends `tail`.
fn append(out: &mut Vec<u8>, tail: &[u8])
    ensures
        final(out)@ == old(out)@ + tail@,
{
    let n: usize = tail.len();
    let mut i: usize = 0;
    proof {
        assert(out@ =~= old(out)@ + tail@.take(0));
    }
    while i < n
        invariant
            i <= n == tail@.len(),
            out@ == old(out)@ + tail@.take(i as int),
        decreases n - i,
    {
        out.push(tail[i]);
        i += 1;
        proof {
            assert(out@ =~= old(out)@ + tail@.take(i as int));
        }
    }
    proof {
        assert(tail@.take(n as int) =~= tail@);
    }
}

impl Header {
    /// Bytes in a header.
    pub const SIZE: usize = HEADER_SIZE;

    /// Header of a newly compressed file.
    pub fn new(coder: CoderType, original_len: u64, crc32: u32) -> (header: Header)
        ensures
            header == (Header {
                magic: MAGIC,
                version: VERSION,
                coder: if coder == CoderType::AC {
                    0
                } else {
                    1
                },
                original_len,
                crc32,
            }),
    {
        let coder: u8 = match coder {
            CoderType::AC => 0,
            CoderType::RANS => 1,
        };
        Header { magic: MAGIC, version: VERSION, coder, original_len, crc32 }
    }

    /// Appends the header's bytes.
    pub fn write(&self, w: &mut Vec<u8>)
        ensures
            final(w)@ == old(w)@ + header_bytes(*self),
    {
        let a = u32_to_le_bytes(self.magic);
        let b = u64_to_le_bytes(self.original_len);
        let c = u32_to_le_bytes(self.crc32);
        append(w, a.as_slice());
        w.push(self.version);
        w.push(self.coder);
        append(w, b.as_slice());
        append(w, c.as_slice());
        proof {
            assert(w@ =~= old(w)@ + header_bytes(*self));
        }
    }

    /// Reads the header at the front of `r`.
    pub fn read(r: &[u8]) -> (header: Result<Header, ContainerError>)
        ensures
            header == header_at_front(r@),
    {
        if r.len() < 4 {
            return Err(ContainerError::UnexpectedEnd);
        }
        let magic: u32 = u32_from_le_bytes(slice_subrange(r, 0, 4));
        if magic != MAGIC {
            return Err(ContainerError::InvalidMagic(magic));
        }
        if r.len() < 5 {
            return Err(ContainerError::UnexpectedEnd);
        }
        let version: u8 = r[4];
        if version > VERSION {
            return Err(ContainerError::UnsupportedVersion(version));
        }
        if r.len() < 18 {
            return Err(ContainerError::UnexpectedEnd);
        }
        let original_len: u64 = u64_from_le_bytes(slice_subrange(r, 6, 14));
        let crc32: u32 = u32_from_le_bytes(slice_subrange(r, 14, 18));
        Ok(Header { magic, version, coder: r[5], original_len, crc32 })
    }

    /// Coder of the payload.
    pub fn coder_type(&self) -> (coder: CoderType)
        ensures
            coder == (if self.coder == 0 {
                CoderType::AC
            } else {
                CoderType::RANS
            }),
    {
        if self.coder == 0 {
            CoderType::AC
        } else {
            CoderType::RANS
        }
    }
}

// ---------------------------------------------------------------------------------------
// Whole files
// ---------------------------------------------------------------------------------------

/// A compressed file around `payload`.
pub open spec fn framed(coder: CoderType, data: Seq<u8>, payload: Seq<u8>) -> Seq<u8> {
    header_bytes(
        Header {
            magic: MAGIC,
            version: VERSION,
            coder: if coder == CoderType::AC {
                0
            } else {
                1
            },
            original_len: data.len() as u64,
            crc32: coders::crc32_of(data),
        },
    ) + payload
}

/// The compressed file of `parts`, one after the other, around the coder's payload for them.
pub fn frame(coder: CoderType, parts: &[&[u8]], payload: &[u8]) -> (file: Vec<u8>)
    ensures
        file@ == framed(coder, coders::chained(parts@), payload@),
{
    let data = join_parts(parts);
    let header = Header::new(coder, data.len() as u64, crc32(data.as_slice()));
    let mut file: Vec<u8> = Vec::new();
    header.write(&mut file);
    append(&mut file, payload);
    proof {
        assert(file@ =~= framed(coder, coders::chained(parts@), payload@));
    }
    file
}

/// Header of a compressed file and the payload behind it.
pub fn open_frame(file: &[u8]) -> (r: Result<(Header, Vec<u8>), ContainerError>)
    ensures
        match header_at_front(file@) {
            Ok(h) => r matches Ok((g, payload)) && g == h && payload@ == file@.skip(
                HEADER_SIZE as int,
            ),
            Err(e) => r matches Err(f) && f == e,
        },
{
    match Header::read(file) {
        Ok(h) => {
            let mut payload: Vec<u8> = Vec::new();
            append(&mut payload, slice_subrange(file, HEADER_SIZE, file.len()));
            proof {
                assert(payload@ =~= file@.skip(HEADER_SIZE as int));
            }
            Ok((h, payload))
        },
        Err(e) => Err(e),
    }
}

/// Whether `data` is what `header` was written for, by its checksum.
pub fn verify_frame(header: &Header, data: &[u8]) -> (r: Result<(), ContainerError>)
    ensures
        r == (if coders::crc32_of(data@) == header.crc32 {
            Ok(())
        } else {
            Err(ContainerError::CrcMismatch(header.crc32, coders::crc32_of(data@)))
        }),
{
    let actual: u32 = crc32(data);
    if actual != header.crc32 {
        return Err(ContainerError::CrcMismatch(header.crc32, actual));
    }
    Ok(())
}

/// A compressed file tells its payload, its coder and the length of its data, and accepts that
/// data.
pub proof fn law_frame_round_trip(coder: CoderType, data: Seq<u8>, payload: Seq<u8>)
    requires
        data.len() <= u64::MAX,
    ensures
        header_at_front(framed(coder, data, payload)) matches Ok(h) && h.original_len == data.len()
            && h.crc32 == coders::crc32_of(data) && (h.coder == 0 <==> coder == CoderType::AC),
        framed(coder, data, payload).skip(HEADER_SIZE as int) == payload,
{
    let h = Header {
        magic: MAGIC,
        version: VERSION,
        coder: if coder == CoderType::AC {
            0
        } else {
            1
        },
        original_len: data.len() as u64,
        crc32: coders::crc32_of(data),
    };
    law_header_round_trip(h, payload);
}

// ---------------------------------------------------------------------------------------
// Blocks
// ---------------------------------------------------------------------------------------

/// Blocks as bytes.
pub open spec fn block_views(blocks: Seq<Vec<u8>>) -> Seq<Seq<u8>> {
    blocks.map_values(|b: Vec<u8>| b@)
}

/// Blocks, each behind its length.
pub open spec fn blocks_wire(blocks: Seq<Seq<u8>>) -> Seq<u8>
    decreases blocks.len(),
{
    if blocks.len() == 0 {
        Seq::empty()
    } else {
        vstd::bytes::spec_u32_to_le_bytes(blocks[0].len() as u32) + (blocks[0] + blocks_wire(
            blocks.drop_first(),
        ))
    }
}

/// The payload that holds `blocks`.
pub open spec fn rans_payload(blocks: Seq<Seq<u8>>) -> Seq<u8> {
    vstd::bytes::spec_u32_to_le_bytes(blocks.len() as u32) + blocks_wire(blocks)
}

/// `count` blocks at the front of `s`.
pub open spec fn blocks_at_front(s: Seq<u8>, count: nat) -> Result<Seq<Seq<u8>>, ContainerError>
    decreases count,
{
    if count == 0 {
        Ok(Seq::empty())
    } else if s.len() < 4 {
        Err(ContainerError::TruncatedBlockHeader)
    } else {
        let len = vstd::bytes::spec_u32_from_le_bytes(s.subrange(0, 4)) as int;
        if 4 + len > s.len() {
            Err(ContainerError::TruncatedBlockData)
        } else {
            match blocks_at_front(s.skip(4 + len), (count - 1) as nat) {
                Ok(rest) => Ok(seq![s.subrange(4, 4 + len)] + rest),
                Err(e) => Err(e),
            }
        }
    }
}

/// Blocks of a payload.
pub open spec fn rans_blocks(payload: Seq<u8>) -> Result<Seq<Seq<u8>>, ContainerError> {
    if payload.len() < 4 {
        Err(ContainerError::RansTooShort)
    } else {
        blocks_at_front(
            payload.skip(4),
            vstd::bytes::spec_u32_from_le_bytes(payload.subrange(0, 4)) as nat,
        )
    }
}

proof fn lemma_blocks_round_trip(blocks: Seq<Seq<u8>>)
    requires
        forall|i: int| 0 <= i < blocks.len() ==> (#[trigger] blocks[i]).len() <= u32::MAX,
    ensures
        blocks_at_front(blocks_wire(blocks), blocks.len()) == Ok::<Seq<Seq<u8>>, ContainerError>(
            blocks,
        ),
    decreases blocks.len(),
{
    vstd::bytes::lemma_auto_spec_u32_to_from_le_bytes();
    if blocks.len() > 0 {
        let first = blocks[0];
        let rest = blocks.drop_first();
        let s = blocks_wire(blocks);
        assert forall|i: int| 0 <= i < rest.len() implies (#[trigger] rest[i]).len()
            <= u32::MAX by {
            assert(blocks[i + 1].len() <= u32::MAX);
        }
        lemma_blocks_round_trip(rest);
        let len = first.len() as int;
        assert(s.subrange(0, 4) =~= vstd::bytes::spec_u32_to_le_bytes(first.len() as u32));
        assert(s.subrange(4, 4 + len) =~= first);
        assert(s.skip(4 + len) =~= blocks_wire(rest));
        assert(seq![first] + rest =~= blocks);
    } else {
        assert(blocks =~= Seq::empty());
    }
}

/// Blocks are read back from the payload that holds them.
pub proof fn law_rans_blocks_round_trip(blocks: Seq<Seq<u8>>)
    requires
        blocks.len() <= u32::MAX,
        forall|i: int| 0 <= i < blocks.len() ==> (#[trigger] blocks[i]).len() <= u32::MAX,
    ensures
        rans_blocks(rans_payload(blocks)) == Ok::<Seq<Seq<u8>>, ContainerError>(blocks),
{
    vstd::bytes::lemma_auto_spec_u32_to_from_le_bytes();
    let p = rans_payload(blocks);
    assert(p.subrange(0, 4) =~= vstd::bytes::spec_u32_to_le_bytes(blocks.len() as u32));
    assert(p.skip(4) =~= blocks_wire(blocks));
    lemma_blocks_round_trip(blocks);
}

/// The payload that holds `blocks`.
pub fn write_rans_blocks(blocks: &Vec<Vec<u8>>) -> (payload: Vec<u8>)
    requires
        blocks@.len() <= u32::MAX,
        forall|i: int| 0 <= i < blocks@.len() ==> (#[trigger] blocks@[i])@.len() <= u32::MAX,
    ensures
        payload@ == rans_payload(block_views(blocks@)),
{
    let ghost views = block_views(blocks@);
    let count = u32_to_le_bytes(blocks.len() as u32);
    let mut payload: Vec<u8> = Vec::new();
    append(&mut payload, count.as_slice());
    let n: usize = blocks.len();
    let mut i: usize = 0;
    proof {
        assert(views.skip(0) =~= views);
        assert(payload@ =~= vstd::bytes::spec_u32_to_le_bytes(views.len() as u32));
    }
    while i < n
        invariant
            i <= n == blocks@.len(),
            n <= u32::MAX,
            views == block_views(blocks@),
            forall|k: int| 0 <= k < blocks@.len() ==> (#[trigger] blocks@[k])@.len() <= u32::MAX,
            payload@ + blocks_wire(views.skip(i as int)) == rans_payload(views),
        decreases n - i,
    {
        let block: &Vec<u8> = &blocks[i];
        let len = u32_to_le_bytes(block.len() as u32);
        let ghost before = payload@;
        let ghost left = views.skip(i as int);
        append(&mut payload, len.as_slice());
        append(&mut payload, block.as_slice());
        proof {
            assert(left[0] == block@);
            assert(left.drop_first() =~= views.skip(i + 1));
            assert(payload@ + blocks_wire(views.skip(i + 1)) =~= before + blocks_wire(left));
        }
        i += 1;
    }
    proof {
        assert(views.skip(n as int) =~= Seq::empty());
        assert(payload@ + blocks_wire(views.skip(n as int)) =~= payload@);
    }
    payload
}

/// Blocks of a payload.
pub fn read_rans_blocks(payload: &[u8]) -> (r: Result<Vec<Vec<u8>>, ContainerError>)
    ensures
        match rans_blocks(payload@) {
            Ok(blocks) => r matches Ok(bs) && block_views(bs@) == blocks,
            Err(e) => r matches Err(f) && f == e,
        },
{
    let n: usize = payload.len();
    if n < 4 {
        return Err(ContainerError::RansTooShort);
    }
    let count: u32 = u32_from_le_bytes(slice_subrange(payload, 0, 4));
    let ghost goal = rans_blocks(payload@);
    let mut blocks: Vec<Vec<u8>> = Vec::new();
    let mut pos: usize = 4;
    let mut i: u32 = 0;
    proof {
        assert(block_views(blocks@) =~= Seq::empty());
        if let Ok(all) = goal {
            assert(Seq::<Seq<u8>>::empty() + all =~= all);
        }
    }
    while i < count
        invariant
            n == payload@.len(),
            4 <= pos <= n,
            i <= count,
            match blocks_at_front(payload@.skip(pos as int), (count - i) as nat) {
                Ok(rest) => goal == Ok::<Seq<Seq<u8>>, ContainerError>(
                    block_views(blocks@) + rest,
                ),
                Err(e) => goal == Err::<Seq<Seq<u8>>, ContainerError>(e),
            },
            goal == rans_blocks(payload@),
        decreases count - i,
    {
        let ghost s = payload@.skip(pos as int);
        if n - pos < 4 {
            return Err(ContainerError::TruncatedBlockHeader);
        }
        let len: u32 = u32_from_le_bytes(slice_subrange(payload, pos, pos + 4));
        proof {
            assert(payload@.subrange(pos as int, pos + 4) =~= s.subrange(0, 4));
        }
        pos = pos + 4;
        if (n - pos) < len as usize {
            return Err(ContainerError::TruncatedBlockData);
        }
        let mut block: Vec<u8> = Vec::new();
        append(&mut block, slice_subrange(payload, pos, pos + len as usize));
        let ghost before = blocks@;
        proof {
            assert(block@ =~= s.subrange(4, 4 + len as int));
            assert(s.skip(4 + len as int) =~= payload@.skip(pos + len as int));
        }
        blocks.push(block);
        pos = pos + len as usize;
        proof {
            assert(block_views(blocks@) =~= block_views(before).push(s.subrange(4, 4 + len as int)));
            if let Ok(rest) = blocks_at_front(payload@.skip(pos as int), (count - i - 1) as nat) {
                assert(block_views(before) + (seq![s.subrange(4, 4 + len as int)] + rest)
                    =~= block_views(blocks@) + rest);
            }
        }
        i += 1;
    }
    proof {
        assert(block_views(blocks@) + Seq::<Seq<u8>>::empty() =~= block_views(blocks@));
    }
    Ok(blocks)
}

impl ContainerError {
    /// Text of the refusal.
    pub open spec fn text(&self) -> Seq<char> {
        match self {
            ContainerError::UnexpectedEnd => "failed to fill whole buffer"@,
            ContainerError::InvalidMagic(got) => "Invalid magic number: expected 0x5A505447, got 0x"@
                + coders::hex_text(*got as nat, 8),
            ContainerError::UnsupportedVersion(v) => "Unsupported version: "@ + text::decimal(*v as nat)
                + " (max supported: 2)"@,
            ContainerError::RansTooShort => "rANS data too short"@,
            ContainerError::TruncatedBlockHeader => "Truncated block header"@,
            ContainerError::TruncatedBlockData => "Truncated block data"@,
            ContainerError::CrcMismatch(expected, actual) => "CRC32 mismatch: expected 0x"@
                + coders::hex_text(*expected as nat, 8) + ", got 0x"@ + coders::hex_text(*actual as nat, 8),
        }
    }

    /// What to tell the user.
    pub fn message(&self) -> (message: String)
        ensures
            message@ == self.text(),
    {
        let mut out: Vec<char> = Vec::new();
        match self {
            ContainerError::UnexpectedEnd => push_text(&mut out, "failed to fill whole buffer"),
            ContainerError::InvalidMagic(got) => {
                push_text(&mut out, "Invalid magic number: expected 0x5A505447, got 0x");
                push_chars(&mut out, hex_digits(*got as u64, 8).as_slice());
            },
            ContainerError::UnsupportedVersion(v) => {
                push_text(&mut out, "Unsupported version: ");
                push_chars(&mut out, decimal_of(*v as u64).as_slice());
                push_text(&mut out, " (max supported: 2)");
            },
            ContainerError::RansTooShort => push_text(&mut out, "rANS data too short"),
            ContainerError::TruncatedBlockHeader => push_text(&mut out, "Truncated block header"),
            ContainerError::TruncatedBlockData => push_text(&mut out, "Truncated block data"),
            ContainerError::CrcMismatch(expected, actual) => {
                push_text(&mut out, "CRC32 mismatch: expected 0x");
                push_chars(&mut out, hex_digits(*expected as u64, 8).as_slice());
                push_text(&mut out, ", got 0x");
                push_chars(&mut out, hex_digits(*actual as u64, 8).as_slice());
            },
        }
        proof {
            assert(out@ =~= self.text());
        }
        string_of(out.as_slice())
    }
}

} // verus!
