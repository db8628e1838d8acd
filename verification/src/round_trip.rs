//! The codec's round-trip laws: a block built by the encoder decodes to
//! the very header list it was built from, and the two dynamic tables
//! move in lockstep.

use vstd::prelude::*;
use crate::error::DecodeError;
use crate::decoder::{
    lemma_block_end, lemma_block_step_incremental, lemma_block_step_indexed,
    lemma_block_step_literal, lemma_block_step_size_update, spec_decode_block,
    spec_decode_indexed, spec_decode_literal,
};
use crate::encoder::{
    spec_encode_header, spec_encode_headers, spec_size_update_rep, spec_size_updates,
};
use crate::header_table::{
    lemma_evict_total, lemma_insert_total, lemma_search_from_found, lemma_total_lower,
    spec_evict, spec_insert, spec_search_exact, spec_search_name, spec_table_entry, total_size,
};
use crate::wire::{
    lemma_decode_int_flagged, lemma_decode_int_prefix, lemma_encode_int_first,
    lemma_high_bit_clear, lemma_mask_id, or_first, spec_decode_int, spec_decode_string,
    spec_encode_int, spec_encode_string,
};

verus! {

/// The flag octets stay clear of the prefix fields they are ORed over.
proof fn lemma_flag_constants()
    ensures
        0x80u8 & 127 == 0,
        0x40u8 & 63 == 0,
        0x20u8 & 31 == 0,
        0x10u8 & 15 == 0,
{
    assert(0x80u8 & 127 == 0 && 0x40u8 & 63 == 0 && 0x20u8 & 31 == 0 && 0x10u8 & 15 == 0)
        by (bit_vector);
}

/// The first octet of an indexed representation dispatches to the
/// indexed arm.
proof fn lemma_dispatch_indexed(e0: u8)
    requires
        e0 <= 127,
    ensures
        (e0 | 0x80) & 0x80 == 0x80,
{
    assert((e0 | 0x80) & 0x80 == 0x80) by (bit_vector);
}

/// The first octet of an incremental-indexing literal dispatches to its
/// arm and no earlier one.
proof fn lemma_dispatch_incremental(e0: u8)
    requires
        e0 <= 63,
    ensures
        (e0 | 0x40) & 0x80 != 0x80,
        (e0 | 0x40) & 0xC0 == 0x40,
{
    assert((e0 | 0x40) & 0x80 != 0x80 && (e0 | 0x40) & 0xC0 == 0x40) by (bit_vector)
        requires
            e0 <= 63,
    ;
}

/// The first octet of a never-indexed literal dispatches to the
/// prefix-4 literal arm and no earlier one.
proof fn lemma_dispatch_never(e0: u8)
    requires
        e0 <= 15,
    ensures
        (e0 | 0x10) & 0x80 != 0x80,
        (e0 | 0x10) & 0xC0 != 0x40,
        (e0 | 0x10) & 0xF0 == 0x10,
{
    assert((e0 | 0x10) & 0x80 != 0x80 && (e0 | 0x10) & 0xC0 != 0x40 && (e0 | 0x10) & 0xF0 == 0x10)
        by (bit_vector)
        requires
            e0 <= 15,
    ;
}

/// A zero first octet dispatches to the prefix-4 literal arm and no
/// earlier one.
proof fn lemma_dispatch_new_name()
    ensures
        0u8 & 0x80 != 0x80,
        0u8 & 0xC0 != 0x40,
        0u8 & 0xF0 == 0x00,
{
    assert(0u8 & 0x80 != 0x80 && 0u8 & 0xC0 != 0x40 && 0u8 & 0xF0 == 0x00) by (bit_vector);
}

/// The first octet of a size update dispatches past every other arm.
proof fn lemma_dispatch_size_update(e0: u8)
    requires
        e0 <= 31,
    ensures
        (e0 | 0x20) & 0x80 != 0x80,
        (e0 | 0x20) & 0xC0 != 0x40,
        (e0 | 0x20) & 0xF0 != 0x00,
        (e0 | 0x20) & 0xF0 != 0x10,
{
    assert((e0 | 0x20) & 0x80 != 0x80 && (e0 | 0x20) & 0xC0 != 0x40 && (e0 | 0x20) & 0xF0 != 0x00
        && (e0 | 0x20) & 0xF0 != 0x10) by (bit_vector)
        requires
            e0 <= 31,
    ;
}

/// Decoding a string whose encoding sits at the front of `data` gives the
/// octets back and consumes exactly the encoding.
pub proof fn lemma_decode_string_prefix(data: Seq<u8>, s: Seq<u8>)
    requires
        s.len() <= u64::MAX,
        spec_encode_string(s).len() <= data.len(),
        data.subrange(0, spec_encode_string(s).len() as int) == spec_encode_string(s),
    ensures
        spec_decode_string(data) == Ok::<(Seq<u8>, int), DecodeError>(
            (s, spec_encode_string(s).len() as int),
        ),
{
    let li = spec_encode_int(s.len() as u64, 7);
    let enc = spec_encode_string(s);
    assert(data.subrange(0, li.len() as int) =~= enc.subrange(0, li.len() as int));
    assert(enc.subrange(0, li.len() as int) =~= li);
    lemma_decode_int_prefix(data, s.len() as u64, 7);
    lemma_encode_int_first(s.len() as u64, 7);
    assert(data[0] == data.subrange(0, li.len() as int)[0]);
    lemma_high_bit_clear(data[0]);
    assert(data.subrange(li.len() as int, li.len() as int + s.len() as int) =~= enc.subrange(
        li.len() as int,
        enc.len() as int,
    ));
    assert(enc.subrange(li.len() as int, enc.len() as int) =~= s);
}

/// Splitting a concatenation known to sit at the front of `data`.
proof fn lemma_split_front(data: Seq<u8>, x: Seq<u8>, y: Seq<u8>)
    requires
        x.len() + y.len() <= data.len(),
        data.subrange(0, x.len() + y.len() as int) == x + y,
    ensures
        data.subrange(0, x.len() as int) == x,
        data.subrange(x.len() as int, x.len() + y.len() as int) == y,
{
    assert(data.subrange(0, x.len() as int) =~= (x + y).subrange(0, x.len() as int));
    assert((x + y).subrange(0, x.len() as int) =~= x);
    assert(data.subrange(x.len() as int, x.len() + y.len() as int) =~= (x + y).subrange(
        x.len() as int,
        (x + y).len() as int,
    ));
    assert((x + y).subrange(x.len() as int, (x + y).len() as int) =~= y);
}

/// Decoding an indexed representation placed at the front of `rest`.
proof fn lemma_rt_indexed_rep(dynamic: Seq<(Seq<u8>, Seq<u8>)>, rest: Seq<u8>, idx: u64)
    requires
        1 <= idx <= 61 + dynamic.len(),
        or_first(spec_encode_int(idx, 7), 0x80).len() <= rest.len(),
        rest.subrange(0, or_first(spec_encode_int(idx, 7), 0x80).len() as int) == or_first(
            spec_encode_int(idx, 7),
            0x80,
        ),
    ensures
        spec_decode_indexed(dynamic, rest) == Ok::<((Seq<u8>, Seq<u8>), int), DecodeError>(
            (
                spec_table_entry(dynamic, idx as int),
                or_first(spec_encode_int(idx, 7), 0x80).len() as int,
            ),
        ),
        rest.len() > 0,
        rest[0] & 0x80 == 0x80,
{
    let enc = spec_encode_int(idx, 7);
    lemma_flag_constants();
    lemma_decode_int_flagged(rest, idx, 7, 0x80);
    lemma_encode_int_first(idx, 7);
    assert(rest[0] == rest.subrange(0, enc.len() as int)[0]);
    assert(rest[0] == enc[0] | 0x80);
    lemma_dispatch_indexed(enc[0]);
}

/// Decoding a literal with an indexed name placed at the front of `rest`:
/// the incremental form (prefix 6, flag `0x40`) or the never-indexed form
/// (prefix 4, flag `0x10`).
proof fn lemma_rt_indexed_name_rep(
    dynamic: Seq<(Seq<u8>, Seq<u8>)>,
    rest: Seq<u8>,
    idx: u64,
    value: Seq<u8>,
    prefix_bits: u32,
    flag: u8,
)
    requires
        prefix_bits == 6 && flag == 0x40 || prefix_bits == 4 && flag == 0x10,
        1 <= idx <= 61 + dynamic.len(),
        value.len() <= u64::MAX,
        ({
            let rep = or_first(spec_encode_int(idx, prefix_bits), flag) + spec_encode_string(value);
            rep.len() <= rest.len() && rest.subrange(0, rep.len() as int) == rep
        }),
    ensures
        ({
            let rep = or_first(spec_encode_int(idx, prefix_bits), flag) + spec_encode_string(value);
            spec_decode_literal(dynamic, rest, prefix_bits) == Ok::<
                ((Seq<u8>, Seq<u8>), int),
                DecodeError,
            >(((spec_table_entry(dynamic, idx as int).0, value), rep.len() as int))
        }),
        rest.len() > 0,
        flag == 0x40 ==> rest[0] & 0x80 != 0x80 && rest[0] & 0xC0 == 0x40,
        flag == 0x10 ==> rest[0] & 0x80 != 0x80 && rest[0] & 0xC0 != 0x40 && rest[0] & 0xF0
            == 0x10,
{
    let enc = or_first(spec_encode_int(idx, prefix_bits), flag);
    let vs = spec_encode_string(value);
    let rep = enc + vs;
    lemma_flag_constants();
    lemma_encode_int_first(idx, prefix_bits);
    lemma_split_front(rest, enc, vs);
    lemma_decode_int_flagged(rest, idx, prefix_bits, flag);
    let tail = rest.subrange(enc.len() as int, rest.len() as int);
    assert(tail.subrange(0, vs.len() as int) =~= rest.subrange(
        enc.len() as int,
        rep.len() as int,
    ));
    lemma_decode_string_prefix(tail, value);
    assert(rest[0] == rest.subrange(0, rep.len() as int)[0]);
    assert(rest[0] == spec_encode_int(idx, prefix_bits)[0] | flag);
    if flag == 0x40 {
        lemma_dispatch_incremental(spec_encode_int(idx, prefix_bits)[0]);
    } else {
        lemma_dispatch_never(spec_encode_int(idx, prefix_bits)[0]);
    }
}

/// Decoding a new-name literal (flag octet zero) placed at the front of
/// `rest`.
proof fn lemma_rt_new_name_rep(
    dynamic: Seq<(Seq<u8>, Seq<u8>)>,
    rest: Seq<u8>,
    name: Seq<u8>,
    value: Seq<u8>,
)
    requires
        name.len() <= u64::MAX,
        value.len() <= u64::MAX,
        ({
            let rep = seq![0u8] + spec_encode_string(name) + spec_encode_string(value);
            rep.len() <= rest.len() && rest.subrange(0, rep.len() as int) == rep
        }),
    ensures
        ({
            let rep = seq![0u8] + spec_encode_string(name) + spec_encode_string(value);
            spec_decode_literal(dynamic, rest, 4) == Ok::<((Seq<u8>, Seq<u8>), int), DecodeError>(
                ((name, value), rep.len() as int),
            )
        }),
        rest.len() > 0,
        rest[0] == 0,
{
    let ns = spec_encode_string(name);
    let vs = spec_encode_string(value);
    let rep = seq![0u8] + ns + vs;
    assert(rest[0] == rest.subrange(0, rep.len() as int)[0]);
    assert(rest[0] == 0);
    lemma_mask_id(0, 15);
    let tail1 = rest.subrange(1, rest.len() as int);
    assert(tail1.subrange(0, ns.len() as int) =~= rest.subrange(0, rep.len() as int).subrange(
        1,
        1 + ns.len() as int,
    ));
    assert(rest.subrange(0, rep.len() as int).subrange(1, 1 + ns.len() as int) =~= ns);
    lemma_decode_string_prefix(tail1, name);
    let tail2 = rest.subrange(1 + ns.len() as int, rest.len() as int);
    assert(tail2.subrange(0, vs.len() as int) =~= rest.subrange(0, rep.len() as int).subrange(
        1 + ns.len() as int,
        rep.len() as int,
    ));
    assert(rest.subrange(0, rep.len() as int).subrange(1 + ns.len() as int, rep.len() as int)
        =~= vs);
    lemma_decode_string_prefix(tail2, value);
}

/// Decoding a size update placed at the front of `rest`.
proof fn lemma_rt_size_update_rep(rest: Seq<u8>, n: u64)
    requires
        or_first(spec_encode_int(n, 5), 0x20).len() <= rest.len(),
        rest.subrange(0, or_first(spec_encode_int(n, 5), 0x20).len() as int) == or_first(
            spec_encode_int(n, 5),
            0x20,
        ),
    ensures
        spec_decode_int(rest, 5) == Ok::<(u64, int), DecodeError>(
            (n, or_first(spec_encode_int(n, 5), 0x20).len() as int),
        ),
        rest.len() > 0,
        rest[0] & 0x80 != 0x80,
        rest[0] & 0xC0 != 0x40,
        rest[0] & 0xF0 != 0x00,
        rest[0] & 0xF0 != 0x10,
{
    let enc = spec_encode_int(n, 5);
    lemma_flag_constants();
    lemma_decode_int_flagged(rest, n, 5, 0x20);
    lemma_encode_int_first(n, 5);
    assert(rest[0] == rest.subrange(0, enc.len() as int)[0]);
    assert(rest[0] == enc[0] | 0x20);
    lemma_dispatch_size_update(enc[0]);
}

} // verus!

verus! {

/// Header lists whose names and values a real process can hold.
pub open spec fn hs_wf(hs: Seq<(Seq<u8>, Seq<u8>, bool)>) -> bool {
    forall|j: int|
        0 <= j < hs.len() ==> (#[trigger] hs[j]).0.len() <= u64::MAX && hs[j].1.len() <= u64::MAX
}

/// The headers themselves, the sensitivity hints forgotten: what a
/// decoder is meant to recover.
pub open spec fn strip_flags(hs: Seq<(Seq<u8>, Seq<u8>, bool)>) -> Seq<(Seq<u8>, Seq<u8>)> {
    hs.map_values(|t: (Seq<u8>, Seq<u8>, bool)| (t.0, t.1))
}

/// The table state after a run of size updates is applied in order.
pub open spec fn apply_updates(
    dynamic: Seq<(Seq<u8>, Seq<u8>)>,
    max: nat,
    changes: Seq<u64>,
) -> (Seq<(Seq<u8>, Seq<u8>)>, nat)
    decreases changes.len(),
{
    if changes.len() == 0 {
        (dynamic, max)
    } else {
        apply_updates(
            spec_evict(dynamic, changes[0] as nat),
            changes[0] as nat,
            changes.drop_first(),
        )
    }
}

/// Size updates keep a well-formed table well formed.
pub proof fn lemma_apply_updates_wf(
    dynamic: Seq<(Seq<u8>, Seq<u8>)>,
    max: nat,
    changes: Seq<u64>,
)
    requires
        total_size(dynamic) <= max,
        max <= u64::MAX,
    ensures
        total_size(apply_updates(dynamic, max, changes).0) <= apply_updates(
            dynamic,
            max,
            changes,
        ).1,
        apply_updates(dynamic, max, changes).1 <= u64::MAX,
    decreases changes.len(),
{
    if changes.len() > 0 {
        lemma_evict_total(dynamic, changes[0] as nat);
        lemma_apply_updates_wf(
            spec_evict(dynamic, changes[0] as nat),
            changes[0] as nat,
            changes.drop_first(),
        );
    }
}

/// Decoding a run of size updates sitting at position `i` applies each in
/// order and continues past them.
pub proof fn lemma_updates_round_trip(
    dynamic: Seq<(Seq<u8>, Seq<u8>)>,
    max: nat,
    changes: Seq<u64>,
    data: Seq<u8>,
    i: int,
)
    requires
        0 <= i,
        i + spec_size_updates(changes).len() <= data.len(),
        data.subrange(i, i + spec_size_updates(changes).len() as int) == spec_size_updates(changes),
    ensures
        spec_decode_block(dynamic, max, data, i) == spec_decode_block(
            apply_updates(dynamic, max, changes).0,
            apply_updates(dynamic, max, changes).1,
            data,
            i + spec_size_updates(changes).len(),
        ),
    decreases changes.len(),
{
    if changes.len() > 0 {
        let n = changes[0];
        let rep = spec_size_update_rep(n);
        let reps_rest = spec_size_updates(changes.drop_first());
        assert(spec_size_updates(changes) == rep + reps_rest);
        let rest = data.subrange(i, data.len() as int);
        assert(rest.subrange(0, rep.len() + reps_rest.len() as int) =~= data.subrange(
            i,
            i + spec_size_updates(changes).len() as int,
        ));
        lemma_split_front(rest, rep, reps_rest);
        lemma_rt_size_update_rep(rest, n);
        assert(data[i] == rest[0]);
        lemma_block_step_size_update(dynamic, max, data, i);
        assert(data.subrange(
            i + rep.len() as int,
            i + rep.len() as int + reps_rest.len() as int,
        ) =~= rest.subrange(rep.len() as int, rep.len() + reps_rest.len() as int));
        lemma_updates_round_trip(
            spec_evict(dynamic, n as nat),
            n as nat,
            changes.drop_first(),
            data,
            i + rep.len() as int,
        );
    }
}

/// Decoding the encoding of a header list, sitting at position `i` and
/// running to the end of the input, recovers the list and moves the table
/// exactly as the encoder's own table moved.
#[verifier::rlimit(100)]
pub proof fn lemma_headers_round_trip(
    dynamic: Seq<(Seq<u8>, Seq<u8>)>,
    max: nat,
    hs: Seq<(Seq<u8>, Seq<u8>, bool)>,
    data: Seq<u8>,
    i: int,
)
    requires
        hs_wf(hs),
        total_size(dynamic) <= max,
        max <= u64::MAX,
        0 <= i <= data.len(),
        data.len() - i == spec_encode_headers(dynamic, max, hs).0.len(),
        data.subrange(i, data.len() as int) == spec_encode_headers(dynamic, max, hs).0,
    ensures
        spec_decode_block(dynamic, max, data, i) == Ok::<_, DecodeError>(
            (strip_flags(hs), spec_encode_headers(dynamic, max, hs).1, max),
        ),
    decreases hs.len(),
{
    lemma_total_lower(dynamic);
    if hs.len() == 0 {
        lemma_block_end(dynamic, max, data, i);
        assert(strip_flags(hs) =~= Seq::<(Seq<u8>, Seq<u8>)>::empty());
    } else {
        let h0 = hs[0];
        let step = spec_encode_header(dynamic, max, h0.0, h0.1, h0.2);
        let b1 = step.0;
        let d1 = step.1;
        let rest_hs = hs.drop_first();
        let brest = spec_encode_headers(d1, max, rest_hs);
        assert(spec_encode_headers(dynamic, max, hs).0 == b1 + brest.0);
        assert(spec_encode_headers(dynamic, max, hs).1 == brest.1);
        let rest = data.subrange(i, data.len() as int);
        assert(rest.subrange(0, b1.len() + brest.0.len() as int) =~= rest);
        lemma_split_front(rest, b1, brest.0);
        let c = b1.len() as int;
        assert(data[i] == rest[0]);
        assert(data.subrange(i + c, data.len() as int) =~= rest.subrange(c, rest.len() as int));
        assert(hs_wf(rest_hs)) by {
            assert(forall|j: int|
                0 <= j < rest_hs.len() ==> rest_hs[j] == hs[j + 1] && (#[trigger] rest_hs[j])
                    == hs[j + 1]);
        }
        let ghost decoded_pair = (h0.0, h0.1);
        if h0.2 {
            match spec_search_name(dynamic, h0.0) {
                Some(idx) => {
                    lemma_search_from_found(dynamic, h0.0, None, 1);
                    lemma_rt_indexed_name_rep(dynamic, rest, idx as u64, h0.1, 4, 0x10);
                    lemma_block_step_literal(dynamic, max, data, i);
                    lemma_headers_round_trip(dynamic, max, rest_hs, data, i + c);
                },
                None => {
                    lemma_rt_new_name_rep(dynamic, rest, h0.0, h0.1);
                    lemma_dispatch_new_name();
                    lemma_block_step_literal(dynamic, max, data, i);
                    lemma_headers_round_trip(dynamic, max, rest_hs, data, i + c);
                },
            }
        } else {
            match spec_search_exact(dynamic, h0.0, h0.1) {
                Some(idx) => {
                    lemma_search_from_found(dynamic, h0.0, Some(h0.1), 1);
                    lemma_rt_indexed_rep(dynamic, rest, idx as u64);
                    lemma_block_step_indexed(dynamic, max, data, i);
                    lemma_headers_round_trip(dynamic, max, rest_hs, data, i + c);
                },
                None => match spec_search_name(dynamic, h0.0) {
                    Some(idx) => {
                        lemma_search_from_found(dynamic, h0.0, None, 1);
                        lemma_rt_indexed_name_rep(dynamic, rest, idx as u64, h0.1, 6, 0x40);
                        lemma_block_step_incremental(dynamic, max, data, i);
                        lemma_insert_total(dynamic, decoded_pair, max);
                        lemma_headers_round_trip(d1, max, rest_hs, data, i + c);
                    },
                    None => {
                        lemma_rt_new_name_rep(dynamic, rest, h0.0, h0.1);
                        lemma_dispatch_new_name();
                        lemma_block_step_literal(dynamic, max, data, i);
                        lemma_headers_round_trip(dynamic, max, rest_hs, data, i + c);
                    },
                },
            }
        }
        assert(strip_flags(hs) =~= seq![decoded_pair] + strip_flags(rest_hs));
    }
}

/// The representation round-trip law: a block the encoder builds — the
/// pending size updates, then one representation per header — decodes,
/// on a synchronised peer, to exactly the encoded header list, and the
/// decoder's table ends equal to the encoder's.
pub proof fn lemma_codec_round_trip(
    dynamic: Seq<(Seq<u8>, Seq<u8>)>,
    max: nat,
    changes: Seq<u64>,
    hs: Seq<(Seq<u8>, Seq<u8>, bool)>,
)
    requires
        hs_wf(hs),
        total_size(dynamic) <= max,
        max <= u64::MAX,
    ensures
        ({
            let up = apply_updates(dynamic, max, changes);
            let block = spec_encode_headers(up.0, up.1, hs);
            let bytes = spec_size_updates(changes) + block.0;
            spec_decode_block(dynamic, max, bytes, 0) == Ok::<_, DecodeError>(
                (strip_flags(hs), block.1, up.1),
            )
        }),
{
    let up = apply_updates(dynamic, max, changes);
    let block = spec_encode_headers(up.0, up.1, hs);
    let reps = spec_size_updates(changes);
    let bytes = reps + block.0;
    lemma_apply_updates_wf(dynamic, max, changes);
    assert(bytes.subrange(0, reps.len() as int) =~= reps);
    lemma_updates_round_trip(dynamic, max, changes, bytes, 0);
    assert(bytes.subrange(reps.len() as int, bytes.len() as int) =~= block.0);
    lemma_headers_round_trip(up.0, up.1, hs, bytes, reps.len() as int);
}

/// The sensitivity law: a sensitive header never changes the encoder's
/// dynamic table, and whenever its name is in the table its
/// representation is the never-indexed form (first octet `0001xxxx`).
pub proof fn lemma_sensitive_header(
    dynamic: Seq<(Seq<u8>, Seq<u8>)>,
    max: nat,
    name: Seq<u8>,
    value: Seq<u8>,
)
    ensures
        spec_encode_header(dynamic, max, name, value, true).1 == dynamic,
        spec_search_name(dynamic, name) is Some ==> spec_encode_header(
            dynamic,
            max,
            name,
            value,
            true,
        ).0[0] & 0xF0 == 0x10,
{
    match spec_search_name(dynamic, name) {
        Some(idx) => {
            let enc = spec_encode_int(idx as u64, 4);
            lemma_encode_int_first(idx as u64, 4);
            assert(spec_encode_header(dynamic, max, name, value, true).0[0] == enc[0] | 0x10);
            lemma_dispatch_never(enc[0]);
        },
        None => {},
    }
}

} // verus!
