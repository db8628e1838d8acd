//! The encoder: turns a header list into one block, choosing a
//! representation per header and keeping its dynamic table in step with
//! the peer decoder.

use vstd::prelude::*;
use vstd::pervasive::VecAdditionalExecFns;
use vstd::slice::slice_to_vec;
use crate::header::{EncodableHeader, Header};
use crate::header_table::{
    spec_evict, spec_insert, spec_search_exact, spec_search_name, HeaderTable,
};
use crate::wire::{max_prefix_value, or_first, spec_encode_cont, spec_encode_int,
    spec_encode_string};

verus! {

/// The view of a plain header list as encodable triples: nothing is
/// sensitive.
pub open spec fn plain_view(s: Seq<Header>) -> Seq<(Seq<u8>, Seq<u8>, bool)> {
    s.map_values(|h: Header| (h@.0, h@.1, false))
}

/// The view of a list of encodable headers: (name, value, sensitive)
/// triples.
pub open spec fn enc_headers_view(s: Seq<EncodableHeader>) -> Seq<(Seq<u8>, Seq<u8>, bool)> {
    s.map_values(|h: EncodableHeader| h@)
}

/// The wire bytes of one dynamic table size update instruction.
pub open spec fn spec_size_update_rep(n: u64) -> Seq<u8> {
    or_first(spec_encode_int(n, 5), 0x20)
}

/// The wire bytes of a pending-update list, oldest first.
pub open spec fn spec_size_updates(changes: Seq<u64>) -> Seq<u8>
    decreases changes.len(),
{
    if changes.len() == 0 {
        Seq::empty()
    } else {
        spec_size_update_rep(changes[0]) + spec_size_updates(changes.drop_first())
    }
}

/// The representation one header receives, and the dynamic table that
/// results:
/// - a sensitive header becomes a never-indexed literal when its name is
///   in the table, and a plain new-name literal otherwise; it is never
///   inserted;
/// - a full match becomes an indexed field;
/// - a name match becomes a literal with incremental indexing, and the
///   header is inserted;
/// - anything else becomes a new-name literal without indexing, and is
///   not inserted.
pub open spec fn spec_encode_header(
    dynamic: Seq<(Seq<u8>, Seq<u8>)>,
    max: nat,
    name: Seq<u8>,
    value: Seq<u8>,
    sensitive: bool,
) -> (Seq<u8>, Seq<(Seq<u8>, Seq<u8>)>) {
    if sensitive {
        match spec_search_name(dynamic, name) {
            Some(i) => (or_first(spec_encode_int(i as u64, 4), 0x10) + spec_encode_string(value), dynamic),
            None => (seq![0u8] + spec_encode_string(name) + spec_encode_string(value), dynamic),
        }
    } else {
        match spec_search_exact(dynamic, name, value) {
            Some(i) => (or_first(spec_encode_int(i as u64, 7), 0x80), dynamic),
            None => match spec_search_name(dynamic, name) {
                Some(i) => (
                    or_first(spec_encode_int(i as u64, 6), 0x40) + spec_encode_string(value),
                    spec_insert(dynamic, (name, value), max),
                ),
                None => (seq![0u8] + spec_encode_string(name) + spec_encode_string(value), dynamic),
            },
        }
    }
}

/// A whole header list, one representation each in order, threading the
/// dynamic table through.
pub open spec fn spec_encode_headers(
    dynamic: Seq<(Seq<u8>, Seq<u8>)>,
    max: nat,
    hs: Seq<(Seq<u8>, Seq<u8>, bool)>,
) -> (Seq<u8>, Seq<(Seq<u8>, Seq<u8>)>)
    decreases hs.len(),
{
    if hs.len() == 0 {
        (Seq::empty(), dynamic)
    } else {
        let first = spec_encode_header(dynamic, max, hs[0].0, hs[0].1, hs[0].2);
        let rest = spec_encode_headers(first.1, max, hs.drop_first());
        (first.0 + rest.0, rest.1)
    }
}

/// The encoding half of a codec: a representation chooser around a header
/// table, plus the size updates not yet emitted.
pub struct Encoder {
    pub header_table: HeaderTable,
    pub header_table_changes: Vec<u64>,
}

impl Encoder {
    /// A fresh encoder: empty dynamic table under the default 4096-octet
    /// budget, no pending size updates.
    pub fn new() -> (r: Encoder)
        ensures
            r.header_table.wf(),
            r.header_table.dyn_view() == Seq::<(Seq<u8>, Seq<u8>)>::empty(),
            r.header_table.max_size == 4096,
            r.header_table_changes@ == Seq::<u64>::empty(),
    {
        Encoder { header_table: HeaderTable::new_default(), header_table_changes: Vec::new() }
    }

    /// Writes one prefix integer: the raw magnitude, high flag bits left
    /// zero for the caller to fill.
    pub fn encode_int(&self, value: u64, prefix_bits: u32) -> (r: Vec<u8>)
        requires
            1 <= prefix_bits <= 8,
        ensures
            r@ == spec_encode_int(value, prefix_bits),
            r@.len() >= 1,
    {
        let m = max_prefix_value(prefix_bits);
        if value < m {
            let mut encoded: Vec<u8> = Vec::new();
            encoded.push(value as u8);
            proof {
                assert(encoded@ =~= spec_encode_int(value, prefix_bits));
            }
            return encoded;
        }
        let ghost target = spec_encode_cont((value - m) as nat);
        let mut encoded: Vec<u8> = Vec::new();
        encoded.push(m as u8);
        let mut updated: u64 = value - m;
        while updated >= 128
            invariant
                encoded@.len() >= 1,
                encoded@[0] == m as u8,
                target == encoded@.subrange(1, encoded@.len() as int) + spec_encode_cont(
                    updated as nat,
                ),
            decreases updated,
        {
            let ghost pre = encoded@;
            let chunk: u8 = (updated % 128) as u8 + 128;
            encoded.push(chunk);
            proof {
                assert(encoded@.subrange(1, encoded@.len() as int) =~= pre.subrange(
                    1,
                    pre.len() as int,
                ).push(chunk));
                assert(pre.subrange(1, pre.len() as int).push(chunk) + spec_encode_cont(
                    (updated / 128) as nat,
                ) =~= pre.subrange(1, pre.len() as int) + spec_encode_cont(updated as nat));
            }
            updated = updated / 128;
        }
        encoded.push(updated as u8);
        proof {
            assert(encoded@ =~= seq![m as u8] + target);
            assert(encoded@ =~= spec_encode_int(value, prefix_bits));
        }
        encoded
    }

    /// Writes a new-name literal without indexing: a zero flag octet, then
    /// the name and value as strings.
    pub fn encode_literal(&self, name: &[u8], value: &[u8]) -> (r: Vec<u8>)
        ensures
            r@ == seq![0u8] + spec_encode_string(name@) + spec_encode_string(value@),
    {
        let mut encoded: Vec<u8> = Vec::new();
        encoded.push(0u8);
        let mut name_len = self.encode_int(name.len() as u64, 7);
        encoded.append(&mut name_len);
        let mut name_bytes = slice_to_vec(name);
        encoded.append(&mut name_bytes);
        let mut value_len = self.encode_int(value.len() as u64, 7);
        encoded.append(&mut value_len);
        let mut value_bytes = slice_to_vec(value);
        encoded.append(&mut value_bytes);
        proof {
            assert(encoded@ =~= seq![0u8] + spec_encode_string(name@) + spec_encode_string(
                value@,
            ));
        }
        encoded
    }

    /// Writes an indexed header field: the index under a 7-bit prefix with
    /// the top bit set.
    pub fn encode_indexed(&self, index: u64) -> (r: Vec<u8>)
        ensures
            r@ == or_first(spec_encode_int(index, 7), 0x80),
    {
        let mut bytes = self.encode_int(index, 7);
        let b0 = bytes[0];
        bytes.set(0, b0 | 0x80);
        bytes
    }

    /// Writes a literal whose name is a table reference: the index under a
    /// 6-bit prefix for incremental indexing (flag `0x40`) or a 4-bit
    /// prefix for the never-indexed form (flag `0x10`), then the value as
    /// a string.
    pub fn encode_indexed_literal(&self, index: u64, value: &[u8], index_bit: u8) -> (r: Vec<u8>)
        requires
            index_bit == 0x40 || index_bit == 0x10,
        ensures
            r@ == or_first(
                spec_encode_int(index, if index_bit == 0x40 { 6 } else { 4 }),
                index_bit,
            ) + spec_encode_string(value@),
    {
        let mut prefix: Vec<u8> = if index_bit == 0x40 {
            self.encode_int(index, 6)
        } else {
            self.encode_int(index, 4)
        };
        let b0 = prefix[0];
        prefix.set(0, b0 | index_bit);
        let mut value_len = self.encode_int(value.len() as u64, 7);
        prefix.append(&mut value_len);
        let mut value_bytes = slice_to_vec(value);
        prefix.append(&mut value_bytes);
        proof {
            assert(prefix@ =~= or_first(
                spec_encode_int(index, if index_bit == 0x40 { 6 } else { 4 }),
                index_bit,
            ) + spec_encode_string(value@));
        }
        prefix
    }

    /// The dynamic table budget currently in force.
    pub fn header_table_size(&self) -> (r: u64)
        ensures
            r == self.header_table.max_size,
    {
        self.header_table.max_size
    }

    /// Requests a new dynamic table budget: a no-op when nothing changes;
    /// otherwise the change is applied at once and queued for the next
    /// block, where the peer decoder will see it before any header.
    pub fn set_header_table_size(&mut self, size: u64)
        requires
            old(self).header_table.wf(),
        ensures
            final(self).header_table.wf(),
            final(self).header_table.max_size == size,
            old(self).header_table.max_size == size ==> *final(self) == *old(self),
            old(self).header_table.max_size != size ==> {
                &&& final(self).header_table_changes@ == old(self).header_table_changes@.push(size)
                &&& final(self).header_table.dyn_view() == spec_evict(
                    old(self).header_table.dyn_view(),
                    size as nat,
                )
            },
    {
        if self.header_table.max_size == size {
            return;
        }
        self.header_table_changes.push(size);
        self.header_table.set_max_size(size);
    }

    /// Emits every pending size update, oldest first, and drains the
    /// queue. The table itself is untouched: each change was applied when
    /// it was requested.
    pub fn encode_header_table_changes(&mut self) -> (r: Vec<u8>)
        ensures
            r@ == spec_size_updates(old(self).header_table_changes@),
            final(self).header_table == old(self).header_table,
            final(self).header_table_changes@ == Seq::<u64>::empty(),
    {
        let ghost changes = self.header_table_changes@;
        let mut encoded: Vec<u8> = Vec::new();
        let mut k: usize = 0;
        proof {
            assert(changes.skip(0) =~= changes);
            assert(Seq::<u8>::empty() + spec_size_updates(changes) =~= spec_size_updates(changes));
        }
        while k < self.header_table_changes.len()
            invariant
                self == old(self),
                changes == self.header_table_changes@,
                k <= changes.len(),
                spec_size_updates(changes) == encoded@ + spec_size_updates(changes.skip(k as int)),
            decreases changes.len() - k,
        {
            let ghost pre = encoded@;
            let n = self.header_table_changes[k];
            let mut bytes = self.encode_int(n, 5);
            let b0 = bytes[0];
            bytes.set(0, b0 | 0x20);
            proof {
                assert(bytes@ == spec_size_update_rep(n));
                assert(changes.skip(k as int)[0] == n);
                assert(changes.skip(k as int).drop_first() =~= changes.skip(k as int + 1));
            }
            encoded.append(&mut bytes);
            proof {
                assert(encoded@ + spec_size_updates(changes.skip(k as int + 1)) =~= pre
                    + spec_size_updates(changes.skip(k as int)));
            }
            k = k + 1;
        }
        proof {
            assert(changes.skip(changes.len() as int) =~= Seq::<u64>::empty());
            assert(encoded@ + Seq::<u8>::empty() =~= encoded@);
        }
        self.header_table_changes = Vec::new();
        encoded
    }

    /// Chooses and writes the representation of one header, inserting it
    /// into the dynamic table exactly when the incremental form is chosen.
    pub fn encode_header(&mut self, name: &[u8], value: &[u8], sensitive: bool) -> (r: Vec<u8>)
        requires
            old(self).header_table.wf(),
        ensures
            final(self).header_table.wf(),
            final(self).header_table.max_size == old(self).header_table.max_size,
            final(self).header_table_changes == old(self).header_table_changes,
            ({
                let step = spec_encode_header(
                    old(self).header_table.dyn_view(),
                    old(self).header_table.max_size as nat,
                    name@,
                    value@,
                    sensitive,
                );
                r@ == step.0 && final(self).header_table.dyn_view() == step.1
            }),
    {
        if sensitive {
            match self.header_table.search_with_name(name) {
                Some(i) => self.encode_indexed_literal(i, value, 0x10),
                None => self.encode_literal(name, value),
            }
        } else {
            if let Some(i) = self.header_table.search_with_name_and_value(name, value) {
                return self.encode_indexed(i);
            }
            match self.header_table.search_with_name(name) {
                Some(i) => {
                    self.header_table.add(name, value);
                    self.encode_indexed_literal(i, value, 0x40)
                },
                None => self.encode_literal(name, value),
            }
        }
    }

    /// Encodes a whole block: every pending size update, oldest first and
    /// then drained, followed by one representation per header in input
    /// order.
    pub fn encode_headers(&mut self, headers: &[EncodableHeader]) -> (r: Vec<u8>)
        requires
            old(self).header_table.wf(),
        ensures
            final(self).header_table.wf(),
            final(self).header_table.max_size == old(self).header_table.max_size,
            final(self).header_table_changes@ == Seq::<u64>::empty(),
            ({
                let block = spec_encode_headers(
                    old(self).header_table.dyn_view(),
                    old(self).header_table.max_size as nat,
                    enc_headers_view(headers@),
                );
                r@ == spec_size_updates(old(self).header_table_changes@) + block.0
                    && final(self).header_table.dyn_view() == block.1
            }),
    {
        let ghost d0 = self.header_table.dyn_view();
        let ghost max = self.header_table.max_size as nat;
        let ghost ehs = enc_headers_view(headers@);
        let ghost upd = spec_size_updates(self.header_table_changes@);
        let mut encoded = self.encode_header_table_changes();
        let ghost mut emitted = Seq::<u8>::empty();
        let mut k: usize = 0;
        proof {
            assert(ehs.skip(0) =~= ehs);
            assert(Seq::<u8>::empty() + spec_encode_headers(d0, max, ehs).0 =~= spec_encode_headers(
                d0,
                max,
                ehs,
            ).0);
            assert(encoded@ + Seq::<u8>::empty() =~= encoded@);
        }
        while k < headers.len()
            invariant
                self.header_table.wf(),
                self.header_table.max_size as nat == max,
                self.header_table_changes@ == Seq::<u64>::empty(),
                k <= headers@.len(),
                ehs == enc_headers_view(headers@),
                encoded@ == upd + emitted,
                spec_encode_headers(d0, max, ehs).0 == emitted + spec_encode_headers(
                    self.header_table.dyn_view(),
                    max,
                    ehs.skip(k as int),
                ).0,
                spec_encode_headers(d0, max, ehs).1 == spec_encode_headers(
                    self.header_table.dyn_view(),
                    max,
                    ehs.skip(k as int),
                ).1,
            decreases headers@.len() - k,
        {
            let ghost dyn_pre = self.header_table.dyn_view();
            let ghost em_pre = emitted;
            let h = &headers[k];
            proof {
                assert(ehs.skip(k as int)[0] == h@);
                assert(ehs.skip(k as int).drop_first() =~= ehs.skip(k as int + 1));
            }
            let mut bytes = self.encode_header(h.name.as_slice(), h.value.as_slice(), h.is_sensitive);
            proof {
                emitted = emitted + bytes@;
                let step = spec_encode_header(dyn_pre, max, h.name@, h.value@, h.is_sensitive);
                assert(em_pre + (step.0 + spec_encode_headers(
                    self.header_table.dyn_view(),
                    max,
                    ehs.skip(k as int + 1),
                ).0) =~= emitted + spec_encode_headers(
                    self.header_table.dyn_view(),
                    max,
                    ehs.skip(k as int + 1),
                ).0);
            }
            encoded.append(&mut bytes);
            k = k + 1;
        }
        proof {
            assert(ehs.skip(ehs.len() as int) =~= Seq::<(Seq<u8>, Seq<u8>, bool)>::empty());
            assert(emitted + Seq::<u8>::empty() =~= emitted);
        }
        encoded
    }

    /// Encodes a header list none of which is sensitive: the everyday
    /// entry point for response or request headers.
    pub fn encode(&mut self, headers: &[Header]) -> (r: Vec<u8>)
        requires
            old(self).header_table.wf(),
        ensures
            final(self).header_table.wf(),
            final(self).header_table.max_size == old(self).header_table.max_size,
            final(self).header_table_changes@ == Seq::<u64>::empty(),
            ({
                let block = spec_encode_headers(
                    old(self).header_table.dyn_view(),
                    old(self).header_table.max_size as nat,
                    plain_view(headers@),
                );
                r@ == spec_size_updates(old(self).header_table_changes@) + block.0
                    && final(self).header_table.dyn_view() == block.1
            }),
    {
        let mut tuples: Vec<EncodableHeader> = Vec::new();
        let mut k: usize = 0;
        while k < headers.len()
            invariant
                k <= headers@.len(),
                tuples@.len() == k,
                enc_headers_view(tuples@) == plain_view(headers@).take(k as int),
            decreases headers@.len() - k,
        {
            let ghost pre = tuples@;
            let h = &headers[k];
            tuples.push(
                EncodableHeader {
                    name: slice_to_vec(h.name.as_slice()),
                    value: slice_to_vec(h.value.as_slice()),
                    is_sensitive: false,
                },
            );
            proof {
                assert(enc_headers_view(tuples@) =~= plain_view(headers@).take(k as int + 1));
            }
            k = k + 1;
        }
        proof {
            assert(plain_view(headers@).take(headers@.len() as int) =~= plain_view(headers@));
        }
        self.encode_headers(tuples.as_slice())
    }
}

} // verus!
