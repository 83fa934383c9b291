//! The persisted snapshot format: a compact binary encoding of a whole
//! lattice (dimensions and every unit's bounded history), with a verified
//! round trip — decoding an encoded space reproduces it exactly.
//!
//! Layout: a 4-byte header, then rows and columns as 8-byte little-endian
//! numbers, then the units in arena order. Strings are length-prefixed
//! UTF-8; positions and adjacency are not stored, they are rebuilt from
//! the dimensions.

use vstd::prelude::*;
use vstd::string::StrSliceExecFns;
use vstd::utf8::{decode_utf8, encode_utf8, valid_utf8};

use crate::outside::string_from_utf8;
use crate::space::{neighbor_list, CognitiveSpaceWithMemory, SpaceModel};
use crate::unit::{CognitiveUnitComplex, CognitiveUnitWithMemory, RecordModel, UnitModel};

verus! {

/// `256^k`: the number of values a `k`-byte little-endian field can hold.
pub open spec fn pow256(k: nat) -> nat
    decreases k,
{
    if k == 0 {
        1
    } else {
        256 * pow256((k - 1) as nat)
    }
}

/// A number in `k` little-endian bytes, least significant first.
pub open spec fn enc_le(n: nat, k: nat) -> Seq<u8>
    decreases k,
{
    if k == 0 {
        Seq::empty()
    } else {
        seq![(n % 256) as u8] + enc_le(n / 256, (k - 1) as nat)
    }
}

/// The number a little-endian byte string denotes.
pub open spec fn dec_le(s: Seq<u8>) -> nat
    decreases s.len(),
{
    if s.len() == 0 {
        0
    } else {
        (s[0] + 256 * dec_le(s.drop_first())) as nat
    }
}

pub proof fn lemma_enc_le_len(n: nat, k: nat)
    ensures
        enc_le(n, k).len() == k,
    decreases k,
{
    if k > 0 {
        lemma_enc_le_len(n / 256, (k - 1) as nat);
    }
}

pub proof fn lemma_dec_le_bound(s: Seq<u8>)
    ensures
        dec_le(s) < pow256(s.len()),
    decreases s.len(),
{
    if s.len() > 0 {
        lemma_dec_le_bound(s.drop_first());
        assert(dec_le(s) == s[0] + 256 * dec_le(s.drop_first()));
        assert(s[0] < 256);
        assert(s[0] + 256 * dec_le(s.drop_first()) < 256 * pow256((s.len() - 1) as nat))
            by (nonlinear_arith)
            requires
                s[0] < 256,
                dec_le(s.drop_first()) < pow256((s.len() - 1) as nat),
        ;
    }
}

/// Decoding inverts encoding for every number the field width can hold.
pub proof fn lemma_dec_le_enc_le(n: nat, k: nat)
    requires
        n < pow256(k),
    ensures
        dec_le(enc_le(n, k)) == n,
    decreases k,
{
    if k > 0 {
        let head: u8 = (n % 256) as u8;
        let tail = enc_le(n / 256, (k - 1) as nat);
        assert(enc_le(n, k) == seq![head] + tail);
        lemma_enc_le_len(n / 256, (k - 1) as nat);
        assert((seq![head] + tail).drop_first() =~= tail);
        assert(n / 256 < pow256((k - 1) as nat)) by (nonlinear_arith)
            requires
                n < 256 * pow256((k - 1) as nat),
        ;
        lemma_dec_le_enc_le(n / 256, (k - 1) as nat);
        assert(dec_le(enc_le(n, k)) == n % 256 + 256 * (n / 256));
        assert(n % 256 + 256 * (n / 256) == n) by (nonlinear_arith);
    }
}

pub proof fn lemma_pow256_8()
    ensures
        pow256(8) == 0x1_0000_0000_0000_0000,
{
    reveal_with_fuel(pow256, 9);
}

proof fn lemma_pow256_monotone(a: nat, b: nat)
    requires
        a <= b,
    ensures
        pow256(a) <= pow256(b),
    decreases b,
{
    if a < b {
        lemma_pow256_monotone(a, (b - 1) as nat);
        assert(pow256(b) == 256 * pow256((b - 1) as nat));
        assert(pow256((b - 1) as nat) <= 256 * pow256((b - 1) as nat)) by (nonlinear_arith)
            requires
                pow256((b - 1) as nat) >= 0,
        ;
    }
}

/// A `u64` in eight little-endian bytes.
pub open spec fn enc_u64(n: u64) -> Seq<u8> {
    enc_le(n as nat, 8)
}

/// A length-prefixed byte string.
pub open spec fn enc_bytes(b: Seq<u8>) -> Seq<u8> {
    enc_le(b.len(), 8) + b
}

/// A length-prefixed UTF-8 string.
pub open spec fn enc_str(s: Seq<char>) -> Seq<u8> {
    enc_bytes(encode_utf8(s))
}

/// Parses an 8-byte little-endian number off the front of `s`.
pub open spec fn sp_u64(s: Seq<u8>) -> Option<(u64, Seq<u8>)> {
    if s.len() < 8 {
        Option::None
    } else {
        Option::Some((dec_le(s.take(8)) as u64, s.skip(8)))
    }
}

/// Parses a length-prefixed byte string off the front of `s`.
pub open spec fn sp_bytes(s: Seq<u8>) -> Option<(Seq<u8>, Seq<u8>)> {
    match sp_u64(s) {
        Option::None => Option::None,
        Option::Some((n, rest)) => {
            if rest.len() < n {
                Option::None
            } else {
                Option::Some((rest.take(n as int), rest.skip(n as int)))
            }
        },
    }
}

/// Parses a length-prefixed UTF-8 string off the front of `s`.
pub open spec fn sp_str(s: Seq<u8>) -> Option<(Seq<char>, Seq<u8>)> {
    match sp_bytes(s) {
        Option::None => Option::None,
        Option::Some((b, rest)) => {
            if valid_utf8(b) {
                Option::Some((decode_utf8(b), rest))
            } else {
                Option::None
            }
        },
    }
}

pub proof fn lemma_sp_u64_enc(n: u64, rest: Seq<u8>)
    ensures
        sp_u64(enc_u64(n) + rest) == Option::Some((n, rest)),
{
    let s = enc_u64(n) + rest;
    lemma_enc_le_len(n as nat, 8);
    assert(s.len() >= 8);
    assert(s.take(8) =~= enc_u64(n));
    assert(s.skip(8) =~= rest);
    lemma_pow256_8();
    lemma_dec_le_enc_le(n as nat, 8);
}

pub proof fn lemma_sp_bytes_enc(b: Seq<u8>, rest: Seq<u8>)
    requires
        b.len() <= u64::MAX,
    ensures
        sp_bytes(enc_bytes(b) + rest) == Option::Some((b, rest)),
{
    let s = enc_bytes(b) + rest;
    assert(s =~= enc_le(b.len(), 8) + (b + rest));
    assert(enc_le(b.len(), 8) == enc_u64(b.len() as u64));
    lemma_sp_u64_enc(b.len() as u64, b + rest);
    assert((b + rest).take(b.len() as int) =~= b);
    assert((b + rest).skip(b.len() as int) =~= rest);
}

pub proof fn lemma_sp_str_enc(t: Seq<char>, rest: Seq<u8>)
    requires
        encode_utf8(t).len() <= u64::MAX,
    ensures
        sp_str(enc_str(t) + rest) == Option::Some((t, rest)),
{
    broadcast use vstd::utf8::encode_utf8_valid_utf8, vstd::utf8::encode_utf8_decode_utf8;

    lemma_sp_bytes_enc(encode_utf8(t), rest);
}

/// A record: timestamp, the three strings, then the neighbor snapshots as
/// a counted list of strings.
pub open spec fn enc_record(r: RecordModel) -> Seq<u8> {
    enc_u64(r.timestamp) + enc_str(r.rule) + enc_str(r.state) + enc_str(r.feedback) + enc_le(
        r.neighbors.len(),
        8,
    ) + enc_strs(r.neighbors)
}

/// A list of strings, one after the other.
pub open spec fn enc_strs(ss: Seq<Seq<char>>) -> Seq<u8>
    decreases ss.len(),
{
    if ss.len() == 0 {
        Seq::empty()
    } else {
        enc_str(ss.first()) + enc_strs(ss.drop_first())
    }
}

/// A unit: its capacity, then its history as a counted list of records.
pub open spec fn enc_unit(u: UnitModel) -> Seq<u8> {
    enc_le(u.memory_size, 8) + enc_le(u.memory.len(), 8) + enc_records(u.memory)
}

/// A list of records, one after the other.
pub open spec fn enc_records(rs: Seq<RecordModel>) -> Seq<u8>
    decreases rs.len(),
{
    if rs.len() == 0 {
        Seq::empty()
    } else {
        enc_record(rs.first()) + enc_records(rs.drop_first())
    }
}

/// A list of units, one after the other.
pub open spec fn enc_units(us: Seq<UnitModel>) -> Seq<u8>
    decreases us.len(),
{
    if us.len() == 0 {
        Seq::empty()
    } else {
        enc_unit(us.first()) + enc_units(us.drop_first())
    }
}

/// The four header bytes naming the format and its version.
pub open spec fn header() -> Seq<u8> {
    seq![0x4cu8, 0x43u8, 0x41u8, 0x31u8]
}

/// A whole space: header, dimensions, then the units in arena order.
/// Positions and adjacency are not stored: they are functions of the
/// dimensions.
pub open spec fn enc_space(m: SpaceModel) -> Seq<u8> {
    header() + enc_le(m.rows as nat, 8) + enc_le(m.cols as nat, 8) + enc_units(m.units)
}

/// Parses `cnt` strings off the front of `s`.
pub open spec fn sp_strs(s: Seq<u8>, cnt: nat) -> Option<(Seq<Seq<char>>, Seq<u8>)>
    decreases cnt,
{
    if cnt == 0 {
        Option::Some((Seq::empty(), s))
    } else {
        match sp_str(s) {
            Option::None => Option::None,
            Option::Some((t, rest)) => match sp_strs(rest, (cnt - 1) as nat) {
                Option::None => Option::None,
                Option::Some((ts, rest2)) => Option::Some((seq![t] + ts, rest2)),
            },
        }
    }
}

/// Parses one record off the front of `s`.
#[verifier::opaque]
pub open spec fn sp_record(s: Seq<u8>) -> Option<(RecordModel, Seq<u8>)> {
    match sp_u64(s) {
        Option::None => Option::None,
        Option::Some((timestamp, s1)) => match sp_str(s1) {
            Option::None => Option::None,
            Option::Some((rule, s2)) => match sp_str(s2) {
                Option::None => Option::None,
                Option::Some((state, s3)) => match sp_str(s3) {
                    Option::None => Option::None,
                    Option::Some((feedback, s4)) => match sp_u64(s4) {
                        Option::None => Option::None,
                        Option::Some((cnt, s5)) => {
                            if cnt > usize::MAX {
                                Option::None
                            } else {
                                match sp_strs(s5, cnt as nat) {
                                    Option::None => Option::None,
                                    Option::Some((neighbors, s6)) => Option::Some(
                                        (
                                            RecordModel {
                                                timestamp,
                                                rule,
                                                state,
                                                neighbors,
                                                feedback,
                                            },
                                            s6,
                                        ),
                                    ),
                                }
                            }
                        },
                    },
                },
            },
        },
    }
}

/// Parses `cnt` records off the front of `s`.
pub open spec fn sp_records(s: Seq<u8>, cnt: nat) -> Option<(Seq<RecordModel>, Seq<u8>)>
    decreases cnt,
{
    if cnt == 0 {
        Option::Some((Seq::empty(), s))
    } else {
        match sp_record(s) {
            Option::None => Option::None,
            Option::Some((r, rest)) => match sp_records(rest, (cnt - 1) as nat) {
                Option::None => Option::None,
                Option::Some((rs, rest2)) => Option::Some((seq![r] + rs, rest2)),
            },
        }
    }
}

/// Parses one unit's capacity and history off the front of `s`, rejecting
/// an empty or over-capacity history.
#[verifier::opaque]
pub open spec fn sp_unit(s: Seq<u8>) -> Option<((usize, Seq<RecordModel>), Seq<u8>)> {
    match sp_u64(s) {
        Option::None => Option::None,
        Option::Some((memory_size, s1)) => {
            if memory_size > usize::MAX || memory_size < 1 {
                Option::None
            } else {
                match sp_u64(s1) {
                    Option::None => Option::None,
                    Option::Some((cnt, s2)) => {
                        if cnt < 1 || cnt > memory_size {
                            Option::None
                        } else {
                            match sp_records(s2, cnt as nat) {
                                Option::None => Option::None,
                                Option::Some((rs, s3)) => Option::Some(
                                    ((memory_size as usize, rs), s3),
                                ),
                            }
                        }
                    },
                }
            }
        },
    }
}

/// Parses `cnt` units off the front of `s`.
pub open spec fn sp_units(s: Seq<u8>, cnt: nat) -> Option<
    (Seq<(usize, Seq<RecordModel>)>, Seq<u8>),
>
    decreases cnt,
{
    if cnt == 0 {
        Option::Some((Seq::empty(), s))
    } else {
        match sp_unit(s) {
            Option::None => Option::None,
            Option::Some((u, rest)) => match sp_units(rest, (cnt - 1) as nat) {
                Option::None => Option::None,
                Option::Some((us, rest2)) => Option::Some((seq![u] + us, rest2)),
            },
        }
    }
}

/// Parses a whole space, demanding that nothing follows it.
pub open spec fn sp_space(s: Seq<u8>) -> Option<SpaceModel> {
    if s.len() < 4 || s.take(4) != header() {
        Option::None
    } else {
        match sp_u64(s.skip(4)) {
            Option::None => Option::None,
            Option::Some((rows, s1)) => match sp_u64(s1) {
                Option::None => Option::None,
                Option::Some((cols, s2)) => {
                    if rows < 1 || cols < 1 || rows > usize::MAX || cols > usize::MAX || (
                    rows as int) * (cols as int) > usize::MAX {
                        Option::None
                    } else {
                        match sp_units(s2, ((rows as int) * (cols as int)) as nat) {
                            Option::None => Option::None,
                            Option::Some((parts, s3)) => {
                                if s3.len() != 0 {
                                    Option::None
                                } else {
                                    Option::Some(space_of_parts(
                                        rows as usize,
                                        cols as usize,
                                        parts,
                                    ))
                                }
                            },
                        }
                    }
                },
            },
        }
    }
}

/// The space a parsed dimension pair and unit list denote: positions and
/// adjacency are functions of the dimensions.
pub open spec fn space_of_parts(
    rows: usize,
    cols: usize,
    parts: Seq<(usize, Seq<RecordModel>)>,
) -> SpaceModel {
    SpaceModel {
        rows,
        cols,
        units: Seq::new(
            parts.len(),
            |k: int|
                UnitModel {
                    memory: parts[k].1,
                    memory_size: parts[k].0 as nat,
                    row: (k / (cols as int)) as nat,
                    col: (k % (cols as int)) as nat,
                },
        ),
        adjacency: Seq::new(parts.len(), |k: int| neighbor_list(rows, cols, k as usize)),
    }
}

/// Whether a string is short enough to be length-prefixed.
pub open spec fn encodable_str(t: Seq<char>) -> bool {
    encode_utf8(t).len() <= u64::MAX
}

/// Whether a record's strings and neighbor list fit the format's counted
/// fields.
pub open spec fn encodable_record(r: RecordModel) -> bool {
    &&& encodable_str(r.rule)
    &&& encodable_str(r.state)
    &&& encodable_str(r.feedback)
    &&& r.neighbors.len() <= usize::MAX
    &&& r.neighbors.len() <= u64::MAX
    &&& forall|i: int| 0 <= i < r.neighbors.len() ==> encodable_str(#[trigger] r.neighbors[i])
}

/// Whether a unit fits the format's counted fields.
pub open spec fn encodable_unit(u: UnitModel) -> bool {
    &&& u.memory_size <= usize::MAX
    &&& u.memory_size <= u64::MAX
    &&& u.memory.len() <= u64::MAX
    &&& forall|i: int| 0 <= i < u.memory.len() ==> encodable_record(#[trigger] u.memory[i])
}

/// Whether every counted field of a space fits the format.
pub open spec fn encodable_space(m: SpaceModel) -> bool {
    forall|k: int| 0 <= k < m.units.len() ==> encodable_unit(#[trigger] m.units[k])
}

pub proof fn lemma_sp_strs_enc(ss: Seq<Seq<char>>, rest: Seq<u8>)
    requires
        forall|i: int| 0 <= i < ss.len() ==> encodable_str(#[trigger] ss[i]),
    ensures
        sp_strs(enc_strs(ss) + rest, ss.len()) == Option::Some((ss, rest)),
    decreases ss.len(),
{
    if ss.len() == 0 {
        assert(enc_strs(ss) + rest =~= rest);
        assert(ss =~= Seq::<Seq<char>>::empty());
    } else {
        assert(ss[0] == ss.first());
        assert(enc_strs(ss) + rest =~= enc_str(ss.first()) + (enc_strs(ss.drop_first()) + rest));
        lemma_sp_str_enc(ss.first(), enc_strs(ss.drop_first()) + rest);
        assert(forall|i: int|
            0 <= i < ss.drop_first().len() ==> encodable_str(#[trigger] ss.drop_first()[i]));
        lemma_sp_strs_enc(ss.drop_first(), rest);
        assert(seq![ss.first()] + ss.drop_first() =~= ss);
    }
}

#[verifier::rlimit(100)]
#[verifier::spinoff_prover]
pub proof fn lemma_sp_record_enc(r: RecordModel, rest: Seq<u8>)
    requires
        encodable_record(r),
    ensures
        sp_record(enc_record(r) + rest) == Option::Some((r, rest)),
{
    reveal(sp_record);
    let s = enc_record(r) + rest;
    let tail5 = enc_strs(r.neighbors) + rest;
    let tail4 = enc_le(r.neighbors.len(), 8) + tail5;
    let tail3 = enc_str(r.feedback) + tail4;
    let tail2 = enc_str(r.state) + tail3;
    let tail1 = enc_str(r.rule) + tail2;
    assert(s =~= enc_u64(r.timestamp) + tail1);
    assert(sp_u64(s) == Option::Some((r.timestamp, tail1))) by {
        lemma_sp_u64_enc(r.timestamp, tail1);
    }
    assert(sp_str(tail1) == Option::Some((r.rule, tail2))) by {
        lemma_sp_str_enc(r.rule, tail2);
    }
    assert(sp_str(tail2) == Option::Some((r.state, tail3))) by {
        lemma_sp_str_enc(r.state, tail3);
    }
    assert(sp_str(tail3) == Option::Some((r.feedback, tail4))) by {
        lemma_sp_str_enc(r.feedback, tail4);
    }
    assert(sp_u64(tail4) == Option::Some((r.neighbors.len() as u64, tail5))) by {
        assert(enc_le(r.neighbors.len(), 8) == enc_u64(r.neighbors.len() as u64));
        lemma_sp_u64_enc(r.neighbors.len() as u64, tail5);
    }
    assert(sp_strs(tail5, r.neighbors.len()) == Option::Some((r.neighbors, rest))) by {
        lemma_sp_strs_enc(r.neighbors, rest);
    }
}

#[verifier::rlimit(100)]
pub proof fn lemma_sp_records_enc(rs: Seq<RecordModel>, rest: Seq<u8>)
    requires
        forall|i: int| 0 <= i < rs.len() ==> encodable_record(#[trigger] rs[i]),
    ensures
        sp_records(enc_records(rs) + rest, rs.len()) == Option::Some((rs, rest)),
    decreases rs.len(),
{
    if rs.len() == 0 {
        assert(enc_records(rs) + rest =~= rest);
        assert(rs =~= Seq::<RecordModel>::empty());
    } else {
        assert(rs[0] == rs.first());
        assert(enc_records(rs) + rest =~= enc_record(rs.first()) + (enc_records(rs.drop_first())
            + rest));
        lemma_sp_record_enc(rs.first(), enc_records(rs.drop_first()) + rest);
        assert(forall|i: int|
            0 <= i < rs.drop_first().len() ==> encodable_record(#[trigger] rs.drop_first()[i]));
        lemma_sp_records_enc(rs.drop_first(), rest);
        assert(seq![rs.first()] + rs.drop_first() =~= rs);
    }
}

pub proof fn lemma_sp_unit_enc(u: UnitModel, rest: Seq<u8>)
    requires
        encodable_unit(u),
        u.wf(),
    ensures
        sp_unit(enc_unit(u) + rest) == Option::Some(((u.memory_size as usize, u.memory), rest)),
{
    reveal(sp_unit);
    let tail1 = enc_le(u.memory.len(), 8) + enc_records(u.memory) + rest;
    assert(enc_le(u.memory_size, 8) == enc_u64(u.memory_size as u64));
    assert(enc_unit(u) + rest =~= enc_u64(u.memory_size as u64) + tail1);
    lemma_sp_u64_enc(u.memory_size as u64, tail1);
    let tail2 = enc_records(u.memory) + rest;
    assert(enc_le(u.memory.len(), 8) == enc_u64(u.memory.len() as u64));
    assert(tail1 =~= enc_u64(u.memory.len() as u64) + tail2);
    lemma_sp_u64_enc(u.memory.len() as u64, tail2);
    lemma_sp_records_enc(u.memory, rest);
}

/// The capacity/history pairs that a unit list parses to.
pub open spec fn parts_of(us: Seq<UnitModel>) -> Seq<(usize, Seq<RecordModel>)> {
    Seq::new(us.len(), |i: int| (us[i].memory_size as usize, us[i].memory))
}

#[verifier::rlimit(100)]
#[verifier::spinoff_prover]
pub proof fn lemma_sp_units_enc(us: Seq<UnitModel>, rest: Seq<u8>)
    requires
        forall|i: int| 0 <= i < us.len() ==> encodable_unit(#[trigger] us[i]),
        forall|i: int| 0 <= i < us.len() ==> (#[trigger] us[i]).wf(),
    ensures
        sp_units(enc_units(us) + rest, us.len()) == Option::Some((parts_of(us), rest)),
    decreases us.len(),
{
    let s = enc_units(us) + rest;
    if us.len() == 0 {
        assert(s =~= rest);
        assert(parts_of(us) =~= Seq::<(usize, Seq<RecordModel>)>::empty());
    } else {
        let u0 = us.first();
        assert(us[0] == u0);
        let tail = enc_units(us.drop_first()) + rest;
        assert(s =~= enc_unit(u0) + tail);
        assert(sp_unit(s) == Option::Some(((u0.memory_size as usize, u0.memory), tail))) by {
            lemma_sp_unit_enc(u0, tail);
        }
        assert(forall|i: int|
            0 <= i < us.drop_first().len() ==> encodable_unit(#[trigger] us.drop_first()[i]));
        assert(forall|i: int|
            0 <= i < us.drop_first().len() ==> (#[trigger] us.drop_first()[i]).wf());
        lemma_sp_units_enc(us.drop_first(), rest);
        assert(sp_units(tail, (us.len() - 1) as nat) == Option::Some(
            (parts_of(us.drop_first()), rest),
        ));
        assert(seq![(u0.memory_size as usize, u0.memory)] + parts_of(us.drop_first())
            =~= parts_of(us));
    }
}

/// Round-trip law: decoding an encoded well-formed space reproduces it
/// exactly — same dimensions, same adjacency, and the same history in
/// every unit.
pub proof fn lemma_codec_round_trip(m: SpaceModel)
    requires
        m.wf(),
        encodable_space(m),
    ensures
        sp_space(enc_space(m)) == Option::Some(m),
{
    let s = enc_space(m);
    let body = enc_le(m.rows as nat, 8) + enc_le(m.cols as nat, 8) + enc_units(m.units);
    assert(s =~= header() + body);
    assert(s.len() >= 4);
    assert(s.take(4) =~= header());
    assert(s.skip(4) =~= body);
    let tail1 = enc_le(m.cols as nat, 8) + enc_units(m.units);
    assert(enc_le(m.rows as nat, 8) == enc_u64(m.rows as u64));
    assert(body =~= enc_u64(m.rows as u64) + tail1);
    lemma_sp_u64_enc(m.rows as u64, tail1);
    let tail2 = enc_units(m.units);
    assert(enc_le(m.cols as nat, 8) == enc_u64(m.cols as u64));
    assert(tail1 =~= enc_u64(m.cols as u64) + tail2);
    lemma_sp_u64_enc(m.cols as u64, tail2);
    assert(tail2 =~= enc_units(m.units) + Seq::<u8>::empty());
    lemma_sp_units_enc(m.units, Seq::empty());
    let parts = parts_of(m.units);
    assert(sp_units(tail2, m.units.len()) == Option::Some((parts, Seq::<u8>::empty())));
    assert(m.units.len() == (m.rows as int) * (m.cols as int));
    let rebuilt = space_of_parts(m.rows, m.cols, parts);
    assert(rebuilt.units =~= m.units);
    assert(rebuilt.adjacency =~= m.adjacency);
    assert(rebuilt == m);
}

/// Appends the eight little-endian bytes of `n`.
fn write_u64(out: &mut Vec<u8>, n: u64)
    ensures
        final(out)@ == old(out)@ + enc_u64(n),
{
    let ghost orig = out@;
    let mut x = n;
    let mut j: usize = 0;
    while j < 8
        invariant
            j <= 8,
            orig + enc_le(n as nat, 8) =~= out@ + enc_le(x as nat, (8 - j) as nat),
        decreases 8 - j,
    {
        let ghost before = out@;
        out.push((x % 256) as u8);
        proof {
            assert(enc_le(x as nat, (8 - j) as nat) == seq![(x as nat % 256) as u8] + enc_le(
                x as nat / 256,
                (8 - (j + 1)) as nat,
            ));
            assert((x % 256) as u8 == (x as nat % 256) as u8);
            assert((x / 256) as nat == x as nat / 256);
            assert(before + enc_le(x as nat, (8 - j) as nat) =~= before.push((x % 256) as u8)
                + enc_le((x / 256) as nat, (8 - (j + 1)) as nat));
        }
        x = x / 256;
        j += 1;
    }
    proof {
        assert(enc_le(x as nat, 0) =~= Seq::<u8>::empty());
        assert(out@ =~= orig + enc_le(n as nat, 8));
    }
}

/// Appends a length-prefixed byte string.
fn write_bytes(out: &mut Vec<u8>, b: &Vec<u8>)
    ensures
        final(out)@ == old(out)@ + enc_bytes(b@),
{
    write_u64(out, b.len() as u64);
    let mut i: usize = 0;
    while i < b.len()
        invariant
            i <= b.len(),
            out@ =~= old(out)@ + enc_le(b@.len(), 8) + b@.take(i as int),
        decreases b.len() - i,
    {
        out.push(b[i]);
        i += 1;
    }
    proof {
        assert(out@ =~= old(out)@ + enc_bytes(b@));
    }
}

/// Appends a length-prefixed UTF-8 string.
fn write_str(out: &mut Vec<u8>, s: &String)
    ensures
        final(out)@ == old(out)@ + enc_str(s@),
{
    let b = s.as_str().as_bytes_vec();
    write_bytes(out, &b);
}

/// Reads an 8-byte little-endian number at `pos`.
fn read_u64(bytes: &Vec<u8>, pos: usize) -> (r: Option<(u64, usize)>)
    requires
        pos <= bytes@.len(),
    ensures
        match r {
            Option::Some((v, p2)) => {
                &&& pos <= p2 <= bytes@.len()
                &&& sp_u64(bytes@.skip(pos as int)) == Option::Some((v, bytes@.skip(p2 as int)))
            },
            Option::None => sp_u64(bytes@.skip(pos as int)) is None,
        },
{
    if bytes.len() - pos < 8 {
        return None;
    }
    let mut v: u64 = 0;
    let mut j: usize = 8;
    while j > 0
        invariant
            j <= 8,
            pos + 8 <= bytes@.len(),
            bytes@.len() <= usize::MAX,
            v < pow256((8 - j) as nat),
            v as nat == dec_le(bytes@.subrange(pos + j, pos + 8)),
        decreases j,
    {
        let b = bytes[pos + j - 1];
        proof {
            assert((v as nat) * 256 + b < 256 * pow256((8 - j) as nat)) by (nonlinear_arith)
                requires
                    (v as nat) < pow256((8 - j) as nat),
                    b < 256,
            ;
            assert(pow256((8 - j + 1) as nat) == 256 * pow256((8 - j) as nat));
            lemma_pow256_monotone((8 - j + 1) as nat, 8);
            lemma_pow256_8();
            assert(bytes@.subrange(pos + j - 1, pos + 8).drop_first() =~= bytes@.subrange(
                pos + j,
                pos + 8,
            ));
            assert(bytes@.subrange(pos + j - 1, pos + 8)[0] == bytes@[pos + j - 1]);
        }
        j -= 1;
        v = v * 256 + b as u64;
    }
    proof {
        assert(bytes@.subrange(pos as int, pos + 8) =~= bytes@.skip(pos as int).take(8));
        assert(bytes@.skip(pos + 8) =~= bytes@.skip(pos as int).skip(8));
        lemma_dec_le_bound(bytes@.skip(pos as int).take(8));
        lemma_pow256_8();
    }
    Some((v, pos + 8))
}

/// Reads a length-prefixed byte string at `pos`.
fn read_bytes(bytes: &Vec<u8>, pos: usize) -> (r: Option<(Vec<u8>, usize)>)
    requires
        pos <= bytes@.len(),
    ensures
        match r {
            Option::Some((v, p2)) => {
                &&& pos <= p2 <= bytes@.len()
                &&& sp_bytes(bytes@.skip(pos as int)) == Option::Some(
                    (v@, bytes@.skip(p2 as int)),
                )
            },
            Option::None => sp_bytes(bytes@.skip(pos as int)) is None,
        },
{
    let (n64, p1) = match read_u64(bytes, pos) {
        Some(x) => x,
        None => {
            return None;
        },
    };
    if n64 > (bytes.len() - p1) as u64 {
        proof {
            assert(bytes@.skip(p1 as int).len() < n64);
        }
        return None;
    }
    let n = n64 as usize;
    let mut v: Vec<u8> = Vec::new();
    let mut i: usize = 0;
    while i < n
        invariant
            i <= n,
            p1 + n <= bytes@.len(),
            bytes@.len() <= usize::MAX,
            v@ =~= bytes@.subrange(p1 as int, p1 + i),
        decreases n - i,
    {
        v.push(bytes[p1 + i]);
        i += 1;
    }
    proof {
        let rest = bytes@.skip(p1 as int);
        assert(rest.len() >= n64);
        assert(rest.take(n64 as int) =~= v@);
        assert(rest.skip(n64 as int) =~= bytes@.skip(p1 + n));
    }
    Some((v, p1 + n))
}

/// Reads a length-prefixed UTF-8 string at `pos`.
fn read_str(bytes: &Vec<u8>, pos: usize) -> (r: Option<(String, usize)>)
    requires
        pos <= bytes@.len(),
    ensures
        match r {
            Option::Some((s, p2)) => {
                &&& pos <= p2 <= bytes@.len()
                &&& sp_str(bytes@.skip(pos as int)) == Option::Some((s@, bytes@.skip(p2 as int)))
            },
            Option::None => sp_str(bytes@.skip(pos as int)) is None,
        },
{
    let (b, p1) = match read_bytes(bytes, pos) {
        Some(x) => x,
        None => {
            return None;
        },
    };
    let ghost b_view = b@;
    match string_from_utf8(b) {
        Some(s) => {
            proof {
                broadcast use vstd::utf8::encode_utf8_decode_utf8;

                assert(vstd::utf8::valid_utf8(b_view));
                assert(encode_utf8(s@) == b_view);
                assert(decode_utf8(b_view) == s@);
            }
            Some((s, p1))
        },
        None => {
            proof {
                assert(!vstd::utf8::valid_utf8(b_view));
            }
            None
        },
    }
}

/// The parse of `cnt` strings with an accumulator in front.
pub open spec fn sp_strs_cont(s: Seq<u8>, cnt: nat, acc: Seq<Seq<char>>) -> Option<
    (Seq<Seq<char>>, Seq<u8>),
> {
    match sp_strs(s, cnt) {
        Option::None => Option::None,
        Option::Some((ts, r)) => Option::Some((acc + ts, r)),
    }
}

proof fn lemma_sp_strs_cont_step(s: Seq<u8>, cnt: nat, acc: Seq<Seq<char>>, t: Seq<char>, rest: Seq<u8>)
    requires
        cnt > 0,
        sp_str(s) == Option::Some((t, rest)),
    ensures
        sp_strs_cont(s, cnt, acc) == sp_strs_cont(rest, (cnt - 1) as nat, acc.push(t)),
{
    match sp_strs(rest, (cnt - 1) as nat) {
        Option::None => {
        },
        Option::Some((ts, r)) => {
            assert(acc + (seq![t] + ts) =~= acc.push(t) + ts);
        },
    }
}

/// Reads `cnt` strings at `pos`.
fn read_strs(bytes: &Vec<u8>, pos: usize, cnt: usize) -> (r: Option<(Vec<String>, usize)>)
    requires
        pos <= bytes@.len(),
    ensures
        match r {
            Option::Some((v, p2)) => {
                &&& pos <= p2 <= bytes@.len()
                &&& v@.len() == cnt
                &&& sp_strs(bytes@.skip(pos as int), cnt as nat) == Option::Some(
                    (v.deep_view(), bytes@.skip(p2 as int)),
                )
            },
            Option::None => sp_strs(bytes@.skip(pos as int), cnt as nat) is None,
        },
{
    let mut v: Vec<String> = Vec::new();
    let mut p = pos;
    let mut i: usize = 0;
    while i < cnt
        invariant
            i <= cnt,
            pos <= p <= bytes@.len(),
            v@.len() == i,
            sp_strs_cont(bytes@.skip(pos as int), cnt as nat, Seq::empty()) == sp_strs_cont(
                bytes@.skip(p as int),
                (cnt - i) as nat,
                v.deep_view(),
            ),
        decreases cnt - i,
    {
        let ghost acc = v.deep_view();
        let (t, pn) = match read_str(bytes, p) {
            Some(x) => x,
            None => {
                return None;
            },
        };
        proof {
            lemma_sp_strs_cont_step(
                bytes@.skip(p as int),
                (cnt - i) as nat,
                acc,
                t@,
                bytes@.skip(pn as int),
            );
        }
        v.push(t);
        proof {
            assert(v.deep_view() =~= acc.push(t@));
        }
        p = pn;
        i += 1;
    }
    proof {
        assert(v.deep_view() + Seq::<Seq<char>>::empty() =~= v.deep_view());
        assert(Seq::<Seq<char>>::empty() + v.deep_view() =~= v.deep_view());
    }
    Some((v, p))
}

/// Reads one record at `pos`.
fn read_record(bytes: &Vec<u8>, pos: usize) -> (r: Option<(CognitiveUnitComplex, usize)>)
    requires
        pos <= bytes@.len(),
    ensures
        match r {
            Option::Some((rec, p2)) => {
                &&& pos <= p2 <= bytes@.len()
                &&& sp_record(bytes@.skip(pos as int)) == Option::Some(
                    (rec@, bytes@.skip(p2 as int)),
                )
            },
            Option::None => sp_record(bytes@.skip(pos as int)) is None,
        },
{
    proof {
        reveal(sp_record);
    }
    let (timestamp, p1) = match read_u64(bytes, pos) {
        Some(x) => x,
        None => {
            return None;
        },
    };
    let (rule, p2) = match read_str(bytes, p1) {
        Some(x) => x,
        None => {
            return None;
        },
    };
    let (state, p3) = match read_str(bytes, p2) {
        Some(x) => x,
        None => {
            return None;
        },
    };
    let (feedback, p4) = match read_str(bytes, p3) {
        Some(x) => x,
        None => {
            return None;
        },
    };
    let (cnt, p5) = match read_u64(bytes, p4) {
        Some(x) => x,
        None => {
            return None;
        },
    };
    if cnt > usize::MAX as u64 {
        return None;
    }
    let (neighbors, p6) = match read_strs(bytes, p5, cnt as usize) {
        Some(x) => x,
        None => {
            return None;
        },
    };
    let rec = CognitiveUnitComplex::new(timestamp, rule, state, neighbors, feedback);
    Some((rec, p6))
}

/// The parse of `cnt` records with an accumulator in front.
pub open spec fn sp_records_cont(s: Seq<u8>, cnt: nat, acc: Seq<RecordModel>) -> Option<
    (Seq<RecordModel>, Seq<u8>),
> {
    match sp_records(s, cnt) {
        Option::None => Option::None,
        Option::Some((rs, r)) => Option::Some((acc + rs, r)),
    }
}

proof fn lemma_sp_records_cont_step(
    s: Seq<u8>,
    cnt: nat,
    acc: Seq<RecordModel>,
    x: RecordModel,
    rest: Seq<u8>,
)
    requires
        cnt > 0,
        sp_record(s) == Option::Some((x, rest)),
    ensures
        sp_records_cont(s, cnt, acc) == sp_records_cont(rest, (cnt - 1) as nat, acc.push(x)),
{
    match sp_records(rest, (cnt - 1) as nat) {
        Option::None => {
        },
        Option::Some((rs, r)) => {
            assert(acc + (seq![x] + rs) =~= acc.push(x) + rs);
        },
    }
}

/// Reads `cnt` records at `pos`.
fn read_records(bytes: &Vec<u8>, pos: usize, cnt: usize) -> (r: Option<
    (Vec<CognitiveUnitComplex>, usize),
>)
    requires
        pos <= bytes@.len(),
    ensures
        match r {
            Option::Some((v, p2)) => {
                &&& pos <= p2 <= bytes@.len()
                &&& v@.len() == cnt
                &&& sp_records(bytes@.skip(pos as int), cnt as nat) == Option::Some(
                    (v.deep_view(), bytes@.skip(p2 as int)),
                )
            },
            Option::None => sp_records(bytes@.skip(pos as int), cnt as nat) is None,
        },
{
    let mut v: Vec<CognitiveUnitComplex> = Vec::new();
    let mut p = pos;
    let mut i: usize = 0;
    while i < cnt
        invariant
            i <= cnt,
            pos <= p <= bytes@.len(),
            v@.len() == i,
            sp_records_cont(bytes@.skip(pos as int), cnt as nat, Seq::empty())
                == sp_records_cont(bytes@.skip(p as int), (cnt - i) as nat, v.deep_view()),
        decreases cnt - i,
    {
        let ghost acc = v.deep_view();
        let (x, pn) = match read_record(bytes, p) {
            Some(x) => x,
            None => {
                return None;
            },
        };
        proof {
            lemma_sp_records_cont_step(
                bytes@.skip(p as int),
                (cnt - i) as nat,
                acc,
                x@,
                bytes@.skip(pn as int),
            );
        }
        v.push(x);
        proof {
            assert(v.deep_view() =~= acc.push(x@));
        }
        p = pn;
        i += 1;
    }
    proof {
        assert(v.deep_view() + Seq::<RecordModel>::empty() =~= v.deep_view());
        assert(Seq::<RecordModel>::empty() + v.deep_view() =~= v.deep_view());
    }
    Some((v, p))
}

/// Reads one unit's capacity and history at `pos`.
fn read_unit(bytes: &Vec<u8>, pos: usize) -> (r: Option<
    ((Vec<CognitiveUnitComplex>, usize), usize),
>)
    requires
        pos <= bytes@.len(),
    ensures
        match r {
            Option::Some(((memory, memory_size), p2)) => {
                &&& pos <= p2 <= bytes@.len()
                &&& 1 <= memory@.len() <= memory_size
                &&& sp_unit(bytes@.skip(pos as int)) == Option::Some(
                    ((memory_size, memory.deep_view()), bytes@.skip(p2 as int)),
                )
            },
            Option::None => sp_unit(bytes@.skip(pos as int)) is None,
        },
{
    proof {
        reveal(sp_unit);
    }
    let (msize, p1) = match read_u64(bytes, pos) {
        Some(x) => x,
        None => {
            return None;
        },
    };
    if msize > usize::MAX as u64 || msize < 1 {
        return None;
    }
    let (cnt, p2) = match read_u64(bytes, p1) {
        Some(x) => x,
        None => {
            return None;
        },
    };
    if cnt < 1 || cnt > msize {
        return None;
    }
    let (memory, p3) = match read_records(bytes, p2, cnt as usize) {
        Some(x) => x,
        None => {
            return None;
        },
    };
    Some(((memory, msize as usize), p3))
}

/// Appends one encoded record.
fn write_record(out: &mut Vec<u8>, rec: &CognitiveUnitComplex)
    ensures
        final(out)@ == old(out)@ + enc_record(rec@),
{
    write_u64(out, rec.timestamp);
    write_str(out, &rec.rule);
    write_str(out, &rec.state);
    write_str(out, &rec.feedback);
    write_u64(out, rec.neighbors.len() as u64);
    proof {
        assert(enc_le(rec@.neighbors.len(), 8) == enc_u64(rec.neighbors@.len() as u64));
    }
    let ghost base = out@;
    let ghost d = rec@.neighbors;
    proof {
        assert(d.skip(0) =~= d);
    }
    let mut i: usize = 0;
    while i < rec.neighbors.len()
        invariant
            i <= rec.neighbors.len(),
            d == rec@.neighbors,
            d.len() == rec.neighbors@.len(),
            out@ + enc_strs(d.skip(i as int)) =~= base + enc_strs(d),
        decreases rec.neighbors.len() - i,
    {
        let ghost before = out@;
        write_str(out, &rec.neighbors[i]);
        proof {
            assert(d.skip(i as int).first() == d[i as int]);
            assert(d.skip(i as int).drop_first() =~= d.skip(i + 1));
            assert(enc_strs(d.skip(i as int)) == enc_str(d[i as int]) + enc_strs(d.skip(i + 1)));
            assert(out@ + enc_strs(d.skip(i + 1)) =~= before + enc_strs(d.skip(i as int)));
        }
        i += 1;
    }
    proof {
        assert(d.skip(d.len() as int) =~= Seq::<Seq<char>>::empty());
        assert(out@ =~= base + enc_strs(d));
        assert(out@ =~= old(out)@ + enc_record(rec@));
    }
}

/// Appends one encoded unit.
fn write_unit(out: &mut Vec<u8>, unit: &CognitiveUnitWithMemory)
    ensures
        final(out)@ == old(out)@ + enc_unit(unit@),
{
    write_u64(out, unit.memory_size as u64);
    write_u64(out, unit.memory.len() as u64);
    proof {
        assert(enc_le(unit@.memory_size, 8) == enc_u64(unit.memory_size as u64));
        assert(enc_le(unit@.memory.len(), 8) == enc_u64(unit.memory@.len() as u64));
    }
    let ghost base = out@;
    let ghost d = unit@.memory;
    proof {
        assert(d.skip(0) =~= d);
    }
    let mut i: usize = 0;
    while i < unit.memory.len()
        invariant
            i <= unit.memory.len(),
            d == unit@.memory,
            d.len() == unit.memory@.len(),
            out@ + enc_records(d.skip(i as int)) =~= base + enc_records(d),
        decreases unit.memory.len() - i,
    {
        let ghost before = out@;
        write_record(out, &unit.memory[i]);
        proof {
            assert(d.skip(i as int).first() == d[i as int]);
            assert(d.skip(i as int).drop_first() =~= d.skip(i + 1));
            assert(enc_records(d.skip(i as int)) == enc_record(d[i as int]) + enc_records(
                d.skip(i + 1),
            ));
            assert(out@ + enc_records(d.skip(i + 1)) =~= before + enc_records(d.skip(i as int)));
        }
        i += 1;
    }
    proof {
        assert(d.skip(d.len() as int) =~= Seq::<RecordModel>::empty());
        assert(out@ =~= base + enc_records(d));
        assert(out@ =~= old(out)@ + enc_unit(unit@));
    }
}

/// For integers at least 1, bounding a product is the same as bounding one
/// factor by a quotient.
proof fn lemma_mul_le_via_div(a: int, b: int, m: int)
    requires
        a >= 0,
        b >= 1,
        m >= 0,
    ensures
        a * b <= m <==> a <= m / b,
{
    assert(m == b * (m / b) + m % b && 0 <= m % b < b) by (nonlinear_arith)
        requires
            b >= 1,
            m >= 0,
    ;
    if a <= m / b {
        assert(a * b <= (m / b) * b) by (nonlinear_arith)
            requires
                a <= m / b,
                b >= 1,
        ;
        assert((m / b) * b <= m) by (nonlinear_arith)
            requires
                m == b * (m / b) + m % b,
                m % b >= 0,
        ;
    }
    if a * b <= m {
        assert(a <= m / b) by (nonlinear_arith)
            requires
                a * b <= m,
                b >= 1,
                m == b * (m / b) + m % b,
                0 <= m % b < b,
        ;
    }
}

impl CognitiveSpaceWithMemory {
    /// Encodes the whole space — dimensions and every unit's history — for
    /// persistence.
    pub fn serialize(&self) -> (out: Vec<u8>)
        ensures
            out@ == enc_space(self@),
    {
        let mut out: Vec<u8> = Vec::new();
        out.push(0x4c);
        out.push(0x43);
        out.push(0x41);
        out.push(0x31);
        proof {
            assert(out@ =~= header());
        }
        let rows = self.rows();
        let cols = self.cols();
        write_u64(&mut out, rows as u64);
        write_u64(&mut out, cols as u64);
        proof {
            assert(enc_le(self@.rows as nat, 8) == enc_u64(rows as u64));
            assert(enc_le(self@.cols as nat, 8) == enc_u64(cols as u64));
        }
        let ghost base = out@;
        let ghost d = self@.units;
        proof {
            assert(d.skip(0) =~= d);
        }
        let n = self.unit_count();
        let mut k: usize = 0;
        while k < n
            invariant
                k <= n,
                n == self@.units.len(),
                d == self@.units,
                out@ + enc_units(d.skip(k as int)) =~= base + enc_units(d),
            decreases n - k,
        {
            let ghost before = out@;
            write_unit(&mut out, self.unit_at(k));
            proof {
                assert(d.skip(k as int).first() == d[k as int]);
                assert(d.skip(k as int).drop_first() =~= d.skip(k + 1));
                assert(enc_units(d.skip(k as int)) == enc_unit(d[k as int]) + enc_units(
                    d.skip(k + 1),
                ));
                assert(out@ + enc_units(d.skip(k + 1)) =~= before + enc_units(d.skip(k as int)));
            }
            k += 1;
        }
        proof {
            assert(d.skip(d.len() as int) =~= Seq::<UnitModel>::empty());
            assert(out@ =~= base + enc_units(d));
            assert(out@ =~= enc_space(self@));
        }
        out
    }

    /// Decodes a persisted snapshot back into a space. Returns `None` on
    /// any malformed input; a decoded space is always well formed.
    #[verifier::loop_isolation(false)]
    pub fn load_from_serialized(bytes: &Vec<u8>) -> (r: Option<CognitiveSpaceWithMemory>)
        ensures
            match r {
                Option::Some(sp) => sp@.wf() && sp_space(bytes@) == Option::Some(sp@),
                Option::None => sp_space(bytes@) is None,
            },
    {
        if bytes.len() < 4 {
            return None;
        }
        if bytes[0] != 0x4c || bytes[1] != 0x43 || bytes[2] != 0x41 || bytes[3] != 0x31 {
            proof {
                assert(bytes@.take(4) != header()) by {
                    if bytes@.take(4) == header() {
                        assert(bytes@.take(4)[0] == 0x4cu8);
                        assert(bytes@.take(4)[1] == 0x43u8);
                        assert(bytes@.take(4)[2] == 0x41u8);
                        assert(bytes@.take(4)[3] == 0x31u8);
                    }
                }
            }
            return None;
        }
        proof {
            assert(bytes@.take(4) =~= header());
        }
        let (rows64, p1) = match read_u64(bytes, 4) {
            Some(x) => x,
            None => {
                return None;
            },
        };
        let (cols64, p2) = match read_u64(bytes, p1) {
            Some(x) => x,
            None => {
                return None;
            },
        };
        if rows64 < 1 || cols64 < 1 || rows64 > usize::MAX as u64 || cols64 > usize::MAX as u64 {
            return None;
        }
        let rows = rows64 as usize;
        let cols = cols64 as usize;
        proof {
            lemma_mul_le_via_div(rows as int, cols as int, usize::MAX as int);
        }
        if rows > usize::MAX / cols {
            proof {
                assert((rows64 as int) * (cols64 as int) > usize::MAX);
            }
            return None;
        }
        let n = rows * cols;
        proof {
            assert(rows64 as int == rows as int);
            assert(cols64 as int == cols as int);
            assert(n as int == (rows as int) * (cols as int));
            assert(((rows64 as int) * (cols64 as int)) as nat == n as nat);
            assert((rows64 as int) * (cols64 as int) <= usize::MAX);
        }
        let mut units: Vec<CognitiveUnitWithMemory> = Vec::new();
        let ghost mut acc: Seq<(usize, Seq<RecordModel>)> = Seq::empty();
        let mut p = p2;
        let mut k: usize = 0;
        while k < n
            invariant
                k <= n,
                1 <= cols,
                p2 <= p <= bytes@.len(),
                n == rows * cols,
                acc.len() == k,
                units.deep_view().len() == k,
                sp_units_cont(bytes@.skip(p2 as int), n as nat, Seq::empty()) == sp_units_cont(
                    bytes@.skip(p as int),
                    (n - k) as nat,
                    acc,
                ),
                forall|j: int|
                    0 <= j < k ==> #[trigger] units.deep_view()[j] == (UnitModel {
                        memory: acc[j].1,
                        memory_size: acc[j].0 as nat,
                        row: (j / (cols as int)) as nat,
                        col: (j % (cols as int)) as nat,
                    }),
                forall|j: int| 0 <= j < k ==> (#[trigger] units.deep_view()[j]).wf(),
            decreases n - k,
        {
            let ghost acc_before = acc;
            let ((memory, memory_size), pn) = match read_unit(bytes, p) {
                Some(x) => x,
                None => {
                    proof {
                        assert(sp_units(bytes@.skip(p as int), (n - k) as nat) is None);
                        assert(sp_units_cont(bytes@.skip(p as int), (n - k) as nat, acc)
                            is None);
                        assert(sp_units(bytes@.skip(p2 as int), n as nat) is None);
                        assert(sp_space(bytes@) is None);
                    }
                    return None;
                },
            };
            proof {
                lemma_sp_units_cont_step(
                    bytes@.skip(p as int),
                    (n - k) as nat,
                    acc_before,
                    (memory_size, memory.deep_view()),
                    bytes@.skip(pn as int),
                );
                acc = acc_before.push((memory_size, memory.deep_view()));
            }
            let ghost mem_view = memory.deep_view();
            let unit = CognitiveUnitWithMemory::new((k / cols, k % cols), memory, memory_size);
            let ghost prev_units = units.deep_view();
            let ghost unit_view = unit@;
            units.push(unit);
            proof {
                assert(units.deep_view() =~= prev_units.push(unit_view));
            }
            p = pn;
            k += 1;
        }
        if p != bytes.len() {
            proof {
                assert(sp_units_cont(bytes@.skip(p as int), 0, acc) == Option::Some(
                    (acc + Seq::<(usize, Seq<RecordModel>)>::empty(), bytes@.skip(p as int)),
                ));
                assert(acc + Seq::<(usize, Seq<RecordModel>)>::empty() =~= acc);
                assert(Seq::<(usize, Seq<RecordModel>)>::empty() + acc =~= acc);
                assert(sp_units(bytes@.skip(p2 as int), n as nat) == Option::Some(
                    (acc, bytes@.skip(p as int)),
                ));
                assert(bytes@.skip(p as int).len() != 0);
                assert(sp_space(bytes@) is None);
            }
            return None;
        }
        let space = CognitiveSpaceWithMemory::from_parts(rows, cols, units);
        proof {
            assert(bytes@.skip(p as int).len() == 0);
            assert(sp_units_cont(bytes@.skip(p as int), 0, acc) == Option::Some(
                (acc + Seq::<(usize, Seq<RecordModel>)>::empty(), bytes@.skip(p as int)),
            ));
            assert(acc + Seq::<(usize, Seq<RecordModel>)>::empty() =~= acc);
            assert(Seq::<(usize, Seq<RecordModel>)>::empty() + acc =~= acc);
            assert(sp_units(bytes@.skip(p2 as int), n as nat) == Option::Some(
                (acc, bytes@.skip(p as int)),
            ));
            let rebuilt = space_of_parts(rows, cols, acc);
            assert(rebuilt.units =~= space@.units);
            assert(rebuilt.adjacency =~= space@.adjacency);
            assert(rebuilt == space@);
            assert(sp_space(bytes@) == Option::Some(space@));
        }
        Some(space)
    }
}

/// The parse of `cnt` units with an accumulator in front.
pub open spec fn sp_units_cont(
    s: Seq<u8>,
    cnt: nat,
    acc: Seq<(usize, Seq<RecordModel>)>,
) -> Option<(Seq<(usize, Seq<RecordModel>)>, Seq<u8>)> {
    match sp_units(s, cnt) {
        Option::None => Option::None,
        Option::Some((us, r)) => Option::Some((acc + us, r)),
    }
}

proof fn lemma_sp_units_cont_step(
    s: Seq<u8>,
    cnt: nat,
    acc: Seq<(usize, Seq<RecordModel>)>,
    x: (usize, Seq<RecordModel>),
    rest: Seq<u8>,
)
    requires
        cnt > 0,
        sp_unit(s) == Option::Some((x, rest)),
    ensures
        sp_units_cont(s, cnt, acc) == sp_units_cont(rest, (cnt - 1) as nat, acc.push(x)),
{
    match sp_units(rest, (cnt - 1) as nat) {
        Option::None => {
        },
        Option::Some((us, r)) => {
            assert(acc + (seq![x] + us) =~= acc.push(x) + us);
        },
    }
}

} // verus!
