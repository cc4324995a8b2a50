//! The fixed-layout tile-set file header: decoding, encoding, and the laws
//! that relate them.
//!
//! The header occupies the first 276 bytes of a tile-set file. All integer
//! fields are little-endian signed 32-bit values, whatever the host's own
//! byte order: offsets [0, 4) and [4, 8) hold the two parts of the format
//! version, [8, 268) is a reserved region that must be all zero, [268, 272)
//! holds the number of tile records, and [272, 276) the byte offset of the
//! tile table within the same file.

use vstd::prelude::*;

use crate::le32::{
    le_bytes_of, le_i32_at, le_quad, lemma_le_quad_of_bytes, lemma_signed_of_unsigned, push_i32_le,
    read_i32_le, signed32,
};

verus! {

/// Total size of the header in bytes.
pub const HEADER_LEN: usize = 276;

/// First byte of the reserved all-zero region.
pub const RESERVED_START: usize = 8;

/// First byte past the reserved all-zero region.
pub const RESERVED_END: usize = 268;

/// The two-part format version tag at the start of the header.
///
/// No particular values are required of either part: the version is
/// decoded, not validated.
#[derive(Clone, Copy, Debug, PartialEq, Eq, Structural)]
pub struct FileVersion {
    /// First part, from bytes [0, 4).
    pub first: i32,
    /// Second part, from bytes [4, 8).
    pub second: i32,
}

/// The decoded fields of a tile-set file header.
#[derive(Clone, Copy, Debug, PartialEq, Eq, Structural)]
pub struct Header {
    /// Format version tag, from bytes [0, 8).
    pub version: FileVersion,
    /// Number of tile records in the file's tile catalog, from bytes
    /// [268, 272).
    pub tile_count: i32,
    /// Byte offset of the tile table within the same file, from bytes
    /// [272, 276).
    pub tile_table_offset: i32,
}

/// Why a buffer failed to decode as a header.
#[derive(Clone, Copy, Debug, PartialEq, Eq, Structural)]
pub enum LoadError {
    /// Fewer than `HEADER_LEN` bytes were available.
    TruncatedHeader,
    /// A byte inside the reserved region [`RESERVED_START`, `RESERVED_END`)
    /// was non-zero; `offset` is the position of the first such byte.
    CorruptHeader { offset: usize },
}

/// Every byte of the reserved region of `s` is zero.
pub open spec fn reserved_zeroed(s: Seq<u8>) -> bool {
    forall|j: int| RESERVED_START <= j < RESERVED_END ==> s[j] == 0
}

/// The position of the first non-zero byte of `s` at or after `i` within
/// the reserved region, or `RESERVED_END` if there is none.
pub open spec fn first_nonzero_from(s: Seq<u8>, i: int) -> int
    recommends
        RESERVED_START <= i <= RESERVED_END,
        RESERVED_END <= s.len(),
    decreases RESERVED_END - i,
{
    if i < RESERVED_START || i >= RESERVED_END {
        RESERVED_END as int
    } else if s[i] != 0 {
        i
    } else {
        first_nonzero_from(s, i + 1)
    }
}

/// What decoding a buffer yields: the header made of the little-endian
/// readings of its field ranges, or the error the buffer deserves.
pub open spec fn spec_load(s: Seq<u8>) -> Result<Header, LoadError> {
    if s.len() < HEADER_LEN {
        Err(LoadError::TruncatedHeader)
    } else if !reserved_zeroed(s) {
        Err(LoadError::CorruptHeader { offset: first_nonzero_from(s, RESERVED_START as int) as usize })
    } else {
        Ok(
            Header {
                version: FileVersion { first: le_i32_at(s, 0), second: le_i32_at(s, 4) },
                tile_count: le_i32_at(s, RESERVED_END as int),
                tile_table_offset: le_i32_at(s, 272),
            },
        )
    }
}

/// The `HEADER_LEN` bytes that encode `h`: the little-endian bytes of the
/// two version parts, the all-zero reserved region, then the little-endian
/// bytes of the tile count and of the tile table offset.
pub open spec fn spec_encode(h: Header) -> Seq<u8> {
    le_bytes_of(h.version.first) + le_bytes_of(h.version.second) + Seq::new(
        (RESERVED_END - RESERVED_START) as nat,
        |j: int| 0u8,
    ) + le_bytes_of(h.tile_count) + le_bytes_of(h.tile_table_offset)
}

/// When every byte from `i` up to `k` is zero and the byte at `k` is not,
/// the scan from `i` stops exactly at `k`.
proof fn lemma_first_nonzero_found(s: Seq<u8>, i: int, k: int)
    requires
        RESERVED_START <= i <= k < RESERVED_END,
        forall|j: int| i <= j < k ==> s[j] == 0,
        s[k] != 0,
    ensures
        first_nonzero_from(s, i) == k,
    decreases k - i,
{
    if i < k {
        lemma_first_nonzero_found(s, i + 1, k);
    }
}

/// Decodes the tile-set header held in the first `HEADER_LEN` bytes of
/// `bytes`.
///
/// Succeeds exactly on buffers of at least `HEADER_LEN` bytes whose
/// reserved region is all zero, and then returns the little-endian
/// readings of the version, tile-count and tile-table-offset ranges.
/// A shorter buffer gives `TruncatedHeader`; a non-zero reserved byte
/// gives `CorruptHeader` with the offset of the first one.
pub fn load(bytes: &[u8]) -> (r: Result<Header, LoadError>)
    ensures
        r == spec_load(bytes@),
{
    if bytes.len() < HEADER_LEN {
        return Err(LoadError::TruncatedHeader);
    }
    let mut i: usize = RESERVED_START;
    while i < RESERVED_END
        invariant
            RESERVED_START <= i <= RESERVED_END,
            bytes@.len() >= HEADER_LEN,
            forall|j: int| RESERVED_START <= j < i ==> bytes@[j] == 0,
        decreases RESERVED_END - i,
    {
        if bytes[i] != 0 {
            proof {
                lemma_first_nonzero_found(bytes@, RESERVED_START as int, i as int);
            }
            return Err(LoadError::CorruptHeader { offset: i });
        }
        i = i + 1;
    }
    Ok(
        Header {
            version: FileVersion {
                first: read_i32_le(bytes, 0),
                second: read_i32_le(bytes, 4),
            },
            tile_count: read_i32_le(bytes, RESERVED_END),
            tile_table_offset: read_i32_le(bytes, 272),
        },
    )
}

impl Header {
    /// Encodes the header as the `HEADER_LEN` bytes that `load` reads:
    /// version, all-zero reserved region, tile count, tile table offset,
    /// every field little-endian.
    pub fn encode(&self) -> (r: Vec<u8>)
        ensures
            r@ == spec_encode(*self),
    {
        let ghost prefix = le_bytes_of(self.version.first) + le_bytes_of(self.version.second);
        let mut out: Vec<u8> = Vec::new();
        push_i32_le(&mut out, self.version.first);
        push_i32_le(&mut out, self.version.second);
        let mut i: usize = RESERVED_START;
        while i < RESERVED_END
            invariant
                RESERVED_START <= i <= RESERVED_END,
                out@ == prefix + Seq::new((i - RESERVED_START) as nat, |j: int| 0u8),
            decreases RESERVED_END - i,
        {
            out.push(0u8);
            i = i + 1;
            proof {
                assert(out@ =~= prefix + Seq::new((i - RESERVED_START) as nat, |j: int| 0u8));
            }
        }
        push_i32_le(&mut out, self.tile_count);
        push_i32_le(&mut out, self.tile_table_offset);
        proof {
            assert(out@ =~= spec_encode(*self));
        }
        out
    }
}

/// Every buffer of fewer than `HEADER_LEN` bytes fails to decode with
/// `TruncatedHeader`, and no field is extracted.
pub proof fn lemma_short_buffer_truncated(s: Seq<u8>)
    requires
        s.len() < HEADER_LEN,
    ensures
        spec_load(s) == Err::<Header, LoadError>(LoadError::TruncatedHeader),
{
}

/// Every buffer of at least `HEADER_LEN` bytes whose reserved region is
/// all zero decodes, and each field is the little-endian reading of its
/// own byte range.
pub proof fn lemma_valid_buffer_decodes(s: Seq<u8>)
    requires
        s.len() >= HEADER_LEN,
        reserved_zeroed(s),
    ensures
        spec_load(s) == Ok::<Header, LoadError>(
            Header {
                version: FileVersion { first: le_i32_at(s, 0), second: le_i32_at(s, 4) },
                tile_count: le_i32_at(s, RESERVED_END as int),
                tile_table_offset: le_i32_at(s, 272),
            },
        ),
{
}

/// General shape of `first_nonzero_from`: it never runs past
/// `RESERVED_END`, every reserved byte before it is zero, and it lands on
/// a non-zero byte unless it reached the end.
proof fn lemma_first_nonzero_shape(s: Seq<u8>, i: int)
    requires
        RESERVED_START <= i <= RESERVED_END,
    ensures
        ({
            let f = first_nonzero_from(s, i);
            &&& i <= f <= RESERVED_END
            &&& forall|j: int| i <= j < f ==> s[j] == 0
            &&& f < RESERVED_END ==> s[f] != 0
        }),
    decreases RESERVED_END - i,
{
    if i < RESERVED_END && s[i] == 0 {
        lemma_first_nonzero_shape(s, i + 1);
    }
}

/// Every buffer of at least `HEADER_LEN` bytes with a non-zero byte
/// anywhere in the reserved region fails to decode with `CorruptHeader`,
/// and the reported offset is the lowest offending index: it holds a
/// non-zero byte, and every reserved byte before it is zero.
pub proof fn lemma_corrupt_reports_first(s: Seq<u8>, k: int)
    requires
        s.len() >= HEADER_LEN,
        RESERVED_START <= k < RESERVED_END,
        s[k] != 0,
    ensures
        ({
            let off = first_nonzero_from(s, RESERVED_START as int);
            &&& spec_load(s) == Err::<Header, LoadError>(
                LoadError::CorruptHeader { offset: off as usize },
            )
            &&& RESERVED_START <= off <= k
            &&& s[off] != 0
            &&& forall|j: int| RESERVED_START <= j < off ==> s[j] == 0
        }),
{
    lemma_first_nonzero_shape(s, RESERVED_START as int);
    let off = first_nonzero_from(s, RESERVED_START as int);
    assert(off <= k) by {
        if off > k {
            assert(s[k] == 0);
        }
    }
    assert(!reserved_zeroed(s)) by {
        assert(s[k] != 0);
    }
}

/// Round trip: encoding a header and then decoding the result yields
/// exactly the original header, whatever its field values.
pub proof fn lemma_round_trip(h: Header)
    ensures
        spec_load(spec_encode(h)) == Ok::<Header, LoadError>(h),
{
    let s = spec_encode(h);
    assert(s.len() == HEADER_LEN);
    assert(reserved_zeroed(s));
    lemma_field_recovered(h.version.first);
    lemma_field_recovered(h.version.second);
    lemma_field_recovered(h.tile_count);
    lemma_field_recovered(h.tile_table_offset);
    assert(le_i32_at(s, 0) == h.version.first);
    assert(le_i32_at(s, 4) == h.version.second);
    assert(le_i32_at(s, RESERVED_END as int) == h.tile_count);
    assert(le_i32_at(s, 272) == h.tile_table_offset);
}

/// Reading back the four little-endian bytes of `v` gives `v`.
proof fn lemma_field_recovered(v: i32)
    ensures
        signed32(
            le_quad(
                le_bytes_of(v)[0],
                le_bytes_of(v)[1],
                le_bytes_of(v)[2],
                le_bytes_of(v)[3],
            ),
        ) as i32 == v,
{
    lemma_le_quad_of_bytes(v);
    lemma_signed_of_unsigned(v);
}

} // verus!
