//! The decoder: parses a header block into an ordered header list while
//! mutating its dynamic table exactly as the block instructs.

use vstd::prelude::*;
use vstd::slice::{slice_subrange, slice_to_vec};
use crate::error::DecodeError;
use crate::header::Header;
use crate::header_table::{
    spec_evict, spec_insert, spec_table_entry, HeaderTable,
};
use crate::static_table::headers_view;
use crate::wire::{
    lemma_decode_int_bounds, lemma_decode_string_bounds, lemma_mask_le, max_prefix_value,
    spec_decode_cont, spec_decode_int, spec_decode_string,
};

verus! {

/// Decoding an indexed representation from the front of `data`: the entry
/// the index selects, and the octets consumed. Index 0 and indices past
/// the table are invalid.
pub open spec fn spec_decode_indexed(
    dynamic: Seq<(Seq<u8>, Seq<u8>)>,
    data: Seq<u8>,
) -> Result<((Seq<u8>, Seq<u8>), int), DecodeError> {
    match spec_decode_int(data, 7) {
        Err(e) => Err(e),
        Ok((idx, c)) => if idx < 1 || idx > 61 + dynamic.len() {
            Err(DecodeError::InvalidIndex)
        } else {
            Ok((spec_table_entry(dynamic, idx as int), c))
        },
    }
}

/// Decoding a literal representation from the front of `data` under an
/// N-bit index prefix: index 0 means the name arrives as a string; any
/// other index borrows the name of the entry it selects. The value always
/// arrives as a string.
pub open spec fn spec_decode_literal(
    dynamic: Seq<(Seq<u8>, Seq<u8>)>,
    data: Seq<u8>,
    prefix_bits: u32,
) -> Result<((Seq<u8>, Seq<u8>), int), DecodeError> {
    match spec_decode_int(data, prefix_bits) {
        Err(e) => Err(e),
        Ok((idx, c)) => if idx == 0 {
            match spec_decode_string(data.subrange(c, data.len() as int)) {
                Err(e) => Err(e),
                Ok((name, c2)) => match spec_decode_string(
                    data.subrange(c + c2, data.len() as int),
                ) {
                    Err(e) => Err(e),
                    Ok((value, c3)) => Ok(((name, value), c + c2 + c3)),
                },
            }
        } else if idx > 61 + dynamic.len() {
            Err(DecodeError::InvalidIndex)
        } else {
            let name = spec_table_entry(dynamic, idx as int).0;
            match spec_decode_string(data.subrange(c, data.len() as int)) {
                Err(e) => Err(e),
                Ok((value, c2)) => Ok(((name, value), c + c2)),
            }
        },
    }
}

/// A decoded indexed representation stays inside the input.
pub proof fn lemma_decode_indexed_bounds(dynamic: Seq<(Seq<u8>, Seq<u8>)>, data: Seq<u8>)
    ensures
        spec_decode_indexed(dynamic, data) matches Ok(r) ==> 1 <= r.1 <= data.len(),
{
    lemma_decode_int_bounds(data, 7);
}

/// A decoded literal representation stays inside the input.
pub proof fn lemma_decode_literal_bounds(
    dynamic: Seq<(Seq<u8>, Seq<u8>)>,
    data: Seq<u8>,
    prefix_bits: u32,
)
    ensures
        spec_decode_literal(dynamic, data, prefix_bits) matches Ok(r) ==> 1 <= r.1 <= data.len(),
{
    lemma_decode_int_bounds(data, prefix_bits);
    if let Ok((idx, c)) = spec_decode_int(data, prefix_bits) {
        lemma_decode_string_bounds(data.subrange(c, data.len() as int));
        if let Ok((_, c2)) = spec_decode_string(data.subrange(c, data.len() as int)) {
            lemma_decode_string_bounds(data.subrange(c + c2, data.len() as int));
        }
    }
}

/// Decoding a whole block from position `i`, threading the dynamic table
/// and its budget through every representation: yields the decoded header
/// pairs and the final table state, or the first error met. A block ends
/// exactly at the end of the input.
#[verifier::opaque]
pub open spec fn spec_decode_block(
    dynamic: Seq<(Seq<u8>, Seq<u8>)>,
    max: nat,
    data: Seq<u8>,
    i: int,
) -> Result<(Seq<(Seq<u8>, Seq<u8>)>, Seq<(Seq<u8>, Seq<u8>)>, nat), DecodeError>
    decreases data.len() - i,
    via spec_decode_block_decreases
{
    if i < 0 || i >= data.len() {
        Ok((Seq::empty(), dynamic, max))
    } else {
        let rest = data.subrange(i, data.len() as int);
        let b = data[i];
        if b & 0x80 == 0x80 {
            // indexed header field
            match spec_decode_indexed(dynamic, rest) {
                Err(e) => Err(e),
                Ok((h, c)) => match spec_decode_block(dynamic, max, data, i + c) {
                    Err(e) => Err(e),
                    Ok((hs, d2, m2)) => Ok((seq![h] + hs, d2, m2)),
                },
            }
        } else if b & 0xC0 == 0x40 {
            // literal with incremental indexing
            match spec_decode_literal(dynamic, rest, 6) {
                Err(e) => Err(e),
                Ok((h, c)) => match spec_decode_block(
                    spec_insert(dynamic, h, max),
                    max,
                    data,
                    i + c,
                ) {
                    Err(e) => Err(e),
                    Ok((hs, d2, m2)) => Ok((seq![h] + hs, d2, m2)),
                },
            }
        } else if b & 0xF0 == 0x00 || b & 0xF0 == 0x10 {
            // literal without indexing, or never indexed: same output,
            // no insertion either way
            match spec_decode_literal(dynamic, rest, 4) {
                Err(e) => Err(e),
                Ok((h, c)) => match spec_decode_block(dynamic, max, data, i + c) {
                    Err(e) => Err(e),
                    Ok((hs, d2, m2)) => Ok((seq![h] + hs, d2, m2)),
                },
            }
        } else {
            // the only remaining top-bit pattern is 001xxxxx:
            // a dynamic table size update
            match spec_decode_int(rest, 5) {
                Err(e) => Err(e),
                Ok((n, c)) => spec_decode_block(spec_evict(dynamic, n as nat), n as nat, data, i + c),
            }
        }
    }
}

#[via_fn]
proof fn spec_decode_block_decreases(
    dynamic: Seq<(Seq<u8>, Seq<u8>)>,
    max: nat,
    data: Seq<u8>,
    i: int,
) {
    if 0 <= i < data.len() {
        let rest = data.subrange(i, data.len() as int);
        lemma_decode_indexed_bounds(dynamic, rest);
        lemma_decode_literal_bounds(dynamic, rest, 6);
        lemma_decode_literal_bounds(dynamic, rest, 4);
        lemma_decode_int_bounds(rest, 5);
    }
}

/// Prepends already-decoded headers onto the outcome of decoding the rest
/// of a block; errors pass through.
pub open spec fn spec_prepend(
    pre: Seq<(Seq<u8>, Seq<u8>)>,
    r: Result<(Seq<(Seq<u8>, Seq<u8>)>, Seq<(Seq<u8>, Seq<u8>)>, nat), DecodeError>,
) -> Result<(Seq<(Seq<u8>, Seq<u8>)>, Seq<(Seq<u8>, Seq<u8>)>, nat), DecodeError> {
    match r {
        Ok((hs, d, m)) => Ok((pre + hs, d, m)),
        Err(e) => Err(e),
    }
}

/// Shifting one header from the pending tail onto the decoded prefix
/// commutes with `spec_prepend`.
proof fn lemma_prepend_shift(
    pre: Seq<(Seq<u8>, Seq<u8>)>,
    x: (Seq<u8>, Seq<u8>),
    r: Result<(Seq<(Seq<u8>, Seq<u8>)>, Seq<(Seq<u8>, Seq<u8>)>, nat), DecodeError>,
)
    ensures
        spec_prepend(pre, spec_prepend(seq![x], r)) == spec_prepend(pre.push(x), r),
{
    match r {
        Ok((hs, d, m)) => {
            assert(pre + (seq![x] + hs) =~= pre.push(x) + hs);
        },
        Err(_) => {},
    }
}

/// Prepending nothing changes nothing.
proof fn lemma_prepend_empty(
    r: Result<(Seq<(Seq<u8>, Seq<u8>)>, Seq<(Seq<u8>, Seq<u8>)>, nat), DecodeError>,
)
    ensures
        spec_prepend(Seq::empty(), r) == r,
{
    match r {
        Ok((hs, d, m)) => {
            assert(Seq::empty() + hs =~= hs);
        },
        Err(_) => {},
    }
}

/// A block ends exactly at the end of the input, leaving the table as it
/// stands.
pub proof fn lemma_block_end(dynamic: Seq<(Seq<u8>, Seq<u8>)>, max: nat, data: Seq<u8>, i: int)
    requires
        i >= data.len(),
    ensures
        spec_decode_block(dynamic, max, data, i) == Ok::<_, DecodeError>(
            (Seq::<(Seq<u8>, Seq<u8>)>::empty(), dynamic, max),
        ),
{
    reveal(spec_decode_block);
}

/// One step of a block beginning with an indexed representation.
pub proof fn lemma_block_step_indexed(
    dynamic: Seq<(Seq<u8>, Seq<u8>)>,
    max: nat,
    data: Seq<u8>,
    i: int,
)
    requires
        0 <= i < data.len(),
        data[i] & 0x80 == 0x80,
    ensures
        spec_decode_block(dynamic, max, data, i) == (match spec_decode_indexed(
            dynamic,
            data.subrange(i, data.len() as int),
        ) {
            Err(e) => Err(e),
            Ok((h, c)) => spec_prepend(seq![h], spec_decode_block(dynamic, max, data, i + c)),
        }),
{
    reveal(spec_decode_block);
}

/// One step of a block beginning with a literal under incremental
/// indexing: the header is emitted and inserted.
pub proof fn lemma_block_step_incremental(
    dynamic: Seq<(Seq<u8>, Seq<u8>)>,
    max: nat,
    data: Seq<u8>,
    i: int,
)
    requires
        0 <= i < data.len(),
        data[i] & 0x80 != 0x80,
        data[i] & 0xC0 == 0x40,
    ensures
        spec_decode_block(dynamic, max, data, i) == (match spec_decode_literal(
            dynamic,
            data.subrange(i, data.len() as int),
            6,
        ) {
            Err(e) => Err(e),
            Ok((h, c)) => spec_prepend(
                seq![h],
                spec_decode_block(spec_insert(dynamic, h, max), max, data, i + c),
            ),
        }),
{
    reveal(spec_decode_block);
}

/// One step of a block beginning with a literal that is not inserted
/// (without indexing, or never indexed).
pub proof fn lemma_block_step_literal(
    dynamic: Seq<(Seq<u8>, Seq<u8>)>,
    max: nat,
    data: Seq<u8>,
    i: int,
)
    requires
        0 <= i < data.len(),
        data[i] & 0x80 != 0x80,
        data[i] & 0xC0 != 0x40,
        data[i] & 0xF0 == 0x00 || data[i] & 0xF0 == 0x10,
    ensures
        spec_decode_block(dynamic, max, data, i) == (match spec_decode_literal(
            dynamic,
            data.subrange(i, data.len() as int),
            4,
        ) {
            Err(e) => Err(e),
            Ok((h, c)) => spec_prepend(seq![h], spec_decode_block(dynamic, max, data, i + c)),
        }),
{
    reveal(spec_decode_block);
}

/// One step of a block beginning with a dynamic table size update.
pub proof fn lemma_block_step_size_update(
    dynamic: Seq<(Seq<u8>, Seq<u8>)>,
    max: nat,
    data: Seq<u8>,
    i: int,
)
    requires
        0 <= i < data.len(),
        data[i] & 0x80 != 0x80,
        data[i] & 0xC0 != 0x40,
        data[i] & 0xF0 != 0x00,
        data[i] & 0xF0 != 0x10,
    ensures
        spec_decode_block(dynamic, max, data, i) == (match spec_decode_int(
            data.subrange(i, data.len() as int),
            5,
        ) {
            Err(e) => Err(e),
            Ok((n, c)) => spec_decode_block(spec_evict(dynamic, n as nat), n as nat, data, i + c),
        }),
{
    reveal(spec_decode_block);
}

/// The decoding half of a codec: a block parser around a header table.
pub struct Decoder {
    pub header_table: HeaderTable,
}

/// Reads the continuation chain of a prefix integer, starting at `i`.
fn decode_int_cont(data: &[u8], i: usize) -> (r: Result<(u64, usize), DecodeError>)
    requires
        i <= data@.len(),
    ensures
        match r {
            Ok((v, j)) => spec_decode_cont(data@, i as int) == Some((v as nat, j as int)) && i < j
                <= data@.len(),
            Err(e) => match e {
                DecodeError::Truncated => spec_decode_cont(data@, i as int) is None,
                DecodeError::IntegerOverflow => spec_decode_cont(data@, i as int) matches Some(rr)
                    && rr.0 > u64::MAX,
                _ => false,
            },
        },
    decreases data@.len() - i,
{
    if i >= data.len() {
        return Err(DecodeError::Truncated);
    }
    let b = data[i];
    if b < 128 {
        return Ok((b as u64, i + 1));
    }
    match decode_int_cont(data, i + 1) {
        Err(e) => Err(e),
        Ok((v, j)) => {
            let low: u64 = (b - 128) as u64;
            if v > u64::MAX / 128 {
                proof {
                    assert(128 * (v as nat) >= 128 * (u64::MAX as nat / 128 + 1));
                }
                Err(DecodeError::IntegerOverflow)
            } else if 128 * v > u64::MAX - low {
                Err(DecodeError::IntegerOverflow)
            } else {
                Ok((low + 128 * v, j))
            }
        },
    }
}

impl Decoder {
    /// A fresh decoder: empty dynamic table under the default 4096-octet
    /// budget.
    pub fn new() -> (r: Decoder)
        ensures
            r.header_table.wf(),
            r.header_table.dyn_view() == Seq::<(Seq<u8>, Seq<u8>)>::empty(),
            r.header_table.max_size == 4096,
    {
        Decoder { header_table: HeaderTable::new_default() }
    }

    /// The dynamic table budget currently in force.
    pub fn max_table_size(&self) -> (r: u64)
        ensures
            r == self.header_table.max_size,
    {
        self.header_table.max_size
    }

    /// Installs a dynamic table budget pushed by protocol settings,
    /// evicting whatever no longer fits. Nothing is read or emitted.
    pub fn set_max_table_size(&mut self, size: u64)
        requires
            old(self).header_table.wf(),
        ensures
            final(self).header_table.wf(),
            final(self).header_table.max_size == size,
            final(self).header_table.dyn_view() == spec_evict(
                old(self).header_table.dyn_view(),
                size as nat,
            ),
    {
        self.header_table.set_max_size(size);
    }

    /// Reads one prefix integer from the front of `data`: its value and the
    /// octets consumed, exactly as `spec_decode_int` lays down.
    pub fn decode_int(&self, data: &[u8], prefix_bits: u32) -> (r: Result<
        (u64, usize),
        DecodeError,
    >)
        requires
            1 <= prefix_bits <= 8,
        ensures
            match r {
                Ok((v, c)) => spec_decode_int(data@, prefix_bits) == Ok::<(u64, int), DecodeError>(
                    (v, c as int),
                ) && 1 <= c <= data@.len(),
                Err(e) => spec_decode_int(data@, prefix_bits) == Err::<(u64, int), DecodeError>(e),
            },
    {
        if data.len() == 0 {
            return Err(DecodeError::EmptyInput);
        }
        let m: u64 = max_prefix_value(prefix_bits);
        let n: u64 = (data[0] & (m as u8)) as u64;
        proof {
            lemma_mask_le(data@[0], m as u8);
        }
        if n < m {
            return Ok((n, 1));
        }
        match decode_int_cont(data, 1) {
            Err(e) => Err(e),
            Ok((v, j)) => if v > u64::MAX - m {
                Err(DecodeError::IntegerOverflow)
            } else {
                Ok((m + v, j))
            },
        }
    }

    /// Reads one length-prefixed string from the front of `data`: the raw
    /// octets and the total consumption. Huffman-flagged strings are
    /// rejected.
    pub fn decode_string(&self, data: &[u8]) -> (r: Result<(Vec<u8>, usize), DecodeError>)
        ensures
            match r {
                Ok((s, c)) => spec_decode_string(data@) == Ok::<(Seq<u8>, int), DecodeError>(
                    (s@, c as int),
                ) && 1 <= c <= data@.len(),
                Err(e) => spec_decode_string(data@) == Err::<(Seq<u8>, int), DecodeError>(e),
            },
    {
        let (length, consumed) = match self.decode_int(data, 7) {
            Ok(x) => x,
            Err(e) => {
                return Err(e);
            },
        };
        if data[0] & 128 == 128 {
            return Err(DecodeError::HuffmanUnsupported);
        }
        if length > (data.len() - consumed) as u64 {
            return Err(DecodeError::Truncated);
        }
        let end: usize = consumed + length as usize;
        let bytes = slice_to_vec(slice_subrange(data, consumed, end));
        Ok((bytes, end))
    }

    /// Reads one literal representation from the front of `data` under an
    /// N-bit index prefix: the header it denotes and the octets consumed.
    /// The caller decides whether the header is also inserted.
    pub fn decode_literal(&self, data: &[u8], prefix: u32) -> (r: Result<
        (Header, usize),
        DecodeError,
    >)
        requires
            self.header_table.wf(),
            1 <= prefix <= 8,
        ensures
            match r {
                Ok((h, c)) => spec_decode_literal(self.header_table.dyn_view(), data@, prefix)
                    == Ok::<((Seq<u8>, Seq<u8>), int), DecodeError>((h@, c as int)) && 1 <= c
                    <= data@.len(),
                Err(e) => spec_decode_literal(self.header_table.dyn_view(), data@, prefix)
                    == Err::<((Seq<u8>, Seq<u8>), int), DecodeError>(e),
            },
    {
        let (index, consumed) = match self.decode_int(data, prefix) {
            Ok(x) => x,
            Err(e) => {
                return Err(e);
            },
        };
        if index == 0 {
            let name_data = slice_subrange(data, consumed, data.len());
            let (name, name_consumed) = match self.decode_string(name_data) {
                Ok(x) => x,
                Err(e) => {
                    return Err(e);
                },
            };
            let after_name: usize = consumed + name_consumed;
            let value_data = slice_subrange(data, after_name, data.len());
            let (value, value_consumed) = match self.decode_string(value_data) {
                Ok(x) => x,
                Err(e) => {
                    return Err(e);
                },
            };
            Ok((Header { name, value }, after_name + value_consumed))
        } else {
            let entry = match self.header_table.get(index) {
                Some(h) => h,
                None => {
                    return Err(DecodeError::InvalidIndex);
                },
            };
            let name = slice_to_vec(entry.name.as_slice());
            let value_data = slice_subrange(data, consumed, data.len());
            let (value, value_consumed) = match self.decode_string(value_data) {
                Ok(x) => x,
                Err(e) => {
                    return Err(e);
                },
            };
            Ok((Header { name, value }, consumed + value_consumed))
        }
    }

    /// Reads one indexed representation from the front of `data`: the table
    /// entry it names and the octets consumed.
    pub fn decode_indexed(&self, data: &[u8]) -> (r: Result<(Header, usize), DecodeError>)
        requires
            self.header_table.wf(),
        ensures
            match r {
                Ok((h, c)) => spec_decode_indexed(self.header_table.dyn_view(), data@) == Ok::<
                    ((Seq<u8>, Seq<u8>), int),
                    DecodeError,
                >((h@, c as int)) && 1 <= c <= data@.len(),
                Err(e) => spec_decode_indexed(self.header_table.dyn_view(), data@) == Err::<
                    ((Seq<u8>, Seq<u8>), int),
                    DecodeError,
                >(e),
            },
    {
        let (index, consumed) = match self.decode_int(data, 7) {
            Ok(x) => x,
            Err(e) => {
                return Err(e);
            },
        };
        let entry = match self.header_table.get(index) {
            Some(h) => h,
            None => {
                return Err(DecodeError::InvalidIndex);
            },
        };
        let header = Header {
            name: slice_to_vec(entry.name.as_slice()),
            value: slice_to_vec(entry.value.as_slice()),
        };
        Ok((header, consumed))
    }

    /// Decodes an entire header block: the ordered header list it denotes.
    /// The dynamic table and its budget end up exactly as the block's
    /// insertions and size updates dictate. On an error nothing is
    /// returned and the codec must be discarded: the table may hold any
    /// prefix of the block's mutations.
    #[verifier::rlimit(100)]
    pub fn decode(&mut self, data: &[u8]) -> (r: Result<Vec<Header>, DecodeError>)
        requires
            old(self).header_table.wf(),
        ensures
            final(self).header_table.wf(),
            match r {
                Ok(hs) => spec_decode_block(
                    old(self).header_table.dyn_view(),
                    old(self).header_table.max_size as nat,
                    data@,
                    0,
                ) == Ok::<_, DecodeError>(
                    (
                        headers_view(hs@),
                        final(self).header_table.dyn_view(),
                        final(self).header_table.max_size as nat,
                    ),
                ),
                Err(e) => spec_decode_block(
                    old(self).header_table.dyn_view(),
                    old(self).header_table.max_size as nat,
                    data@,
                    0,
                ) == Err::<(Seq<(Seq<u8>, Seq<u8>)>, Seq<(Seq<u8>, Seq<u8>)>, nat), DecodeError>(e),
            },
    {
        let ghost d0 = old(self).header_table.dyn_view();
        let ghost m0 = old(self).header_table.max_size as nat;
        let mut headers: Vec<Header> = Vec::new();
        let mut index: usize = 0;
        proof {
            assert(headers_view(headers@) =~= Seq::<(Seq<u8>, Seq<u8>)>::empty());
            lemma_prepend_empty(spec_decode_block(d0, m0, data@, 0));
        }
        while index != data.len()
            invariant
                self.header_table.wf(),
                index <= data@.len(),
                d0 == old(self).header_table.dyn_view(),
                m0 == old(self).header_table.max_size as nat,
                spec_decode_block(d0, m0, data@, 0) == spec_prepend(
                    headers_view(headers@),
                    spec_decode_block(
                        self.header_table.dyn_view(),
                        self.header_table.max_size as nat,
                        data@,
                        index as int,
                    ),
                ),
            decreases data@.len() - index,
        {
            let ghost dyn_pre = self.header_table.dyn_view();
            let ghost max_pre = self.header_table.max_size as nat;
            let ghost hv_pre = headers_view(headers@);
            let ghost i0 = index as int;
            let byte = data[index];
            let rest = slice_subrange(data, index, data.len());
            if byte & 0b1000_0000 == 0b1000_0000 {
                // indexed header field
                let (header, consumed) = match self.decode_indexed(rest) {
                    Ok(x) => x,
                    Err(e) => {
                        proof {
                            lemma_block_step_indexed(dyn_pre, max_pre, data@, i0);
                        }
                        return Err(e);
                    },
                };
                proof {
                    lemma_block_step_indexed(dyn_pre, max_pre, data@, i0);
                    lemma_prepend_shift(
                        hv_pre,
                        header@,
                        spec_decode_block(dyn_pre, max_pre, data@, i0 + consumed),
                    );
                    assert(headers_view(headers@.push(header)) =~= hv_pre.push(header@));
                }
                headers.push(header);
                index = index + consumed;
            } else if byte & 0b1100_0000 == 0b0100_0000 {
                // literal with incremental indexing: emitted and inserted
                let (header, consumed) = match self.decode_literal(rest, 6) {
                    Ok(x) => x,
                    Err(e) => {
                        proof {
                            lemma_block_step_incremental(dyn_pre, max_pre, data@, i0);
                        }
                        return Err(e);
                    },
                };
                self.header_table.add(header.name.as_slice(), header.value.as_slice());
                proof {
                    lemma_block_step_incremental(dyn_pre, max_pre, data@, i0);
                    lemma_prepend_shift(
                        hv_pre,
                        header@,
                        spec_decode_block(
                            self.header_table.dyn_view(),
                            max_pre,
                            data@,
                            i0 + consumed,
                        ),
                    );
                    assert(headers_view(headers@.push(header)) =~= hv_pre.push(header@));
                }
                headers.push(header);
                index = index + consumed;
            } else if byte & 0b1111_0000 == 0b0000_0000 || byte & 0b1111_0000 == 0b0001_0000 {
                // literal without indexing, or never indexed: the decoder
                // treats the two forms alike, and neither inserts
                let (header, consumed) = match self.decode_literal(rest, 4) {
                    Ok(x) => x,
                    Err(e) => {
                        proof {
                            lemma_block_step_literal(dyn_pre, max_pre, data@, i0);
                        }
                        return Err(e);
                    },
                };
                proof {
                    lemma_block_step_literal(dyn_pre, max_pre, data@, i0);
                    lemma_prepend_shift(
                        hv_pre,
                        header@,
                        spec_decode_block(dyn_pre, max_pre, data@, i0 + consumed),
                    );
                    assert(headers_view(headers@.push(header)) =~= hv_pre.push(header@));
                }
                headers.push(header);
                index = index + consumed;
            } else {
                // the only remaining top-bit pattern is 001xxxxx:
                // a dynamic table size update
                proof {
                    let b = byte;
                    assert(b & 0b1110_0000 == 0b0010_0000) by (bit_vector)
                        requires
                            b & 0b1000_0000 != 0b1000_0000 && b & 0b1100_0000 != 0b0100_0000 && b
                                & 0b1111_0000 != 0b0000_0000 && b & 0b1111_0000 != 0b0001_0000,
                    ;
                }
                let (new_size, consumed) = match self.decode_int(rest, 5) {
                    Ok(x) => x,
                    Err(e) => {
                        proof {
                            lemma_block_step_size_update(dyn_pre, max_pre, data@, i0);
                        }
                        return Err(e);
                    },
                };
                self.header_table.set_max_size(new_size);
                proof {
                    lemma_block_step_size_update(dyn_pre, max_pre, data@, i0);
                }
                index = index + consumed;
            }
        }
        proof {
            lemma_block_end(
                self.header_table.dyn_view(),
                self.header_table.max_size as nat,
                data@,
                index as int,
            );
            assert(headers_view(headers@) + Seq::<(Seq<u8>, Seq<u8>)>::empty() =~= headers_view(
                headers@,
            ));
        }
        Ok(headers)
    }
}

} // verus!

