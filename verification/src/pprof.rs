//! The pprof wire format: message types mirroring the public pprof
//! protobuf schema, a mathematical description of their proto3 binary
//! encoding, and a verified encoder that produces exactly those bytes.
//!
//! Ids in these messages are 1-based; 0 denotes "unset". Scalar fields
//! equal to their default are omitted from the encoding, numeric
//! repeated fields are packed, and nested messages are length-delimited,
//! as proto3 prescribes.

use vstd::prelude::*;
use vstd::string::StrSliceExecFns;

use crate::profile::{i64_bits, i64_to_bits};

verus! {

#[derive(Copy, Clone, Debug, Default)]
pub struct ValueType {
    /// Index into the string table.
    pub typ: i64,
    /// Index into the string table.
    pub unit: i64,
}

#[derive(Copy, Clone, Debug, Default)]
pub struct Label {
    pub key: i64,
    pub str: i64,
    pub num: i64,
    pub num_unit: i64,
}

#[derive(Copy, Clone, Debug, Default)]
pub struct Line {
    pub function_id: u64,
    pub line: i64,
}

#[derive(Copy, Clone, Debug, Default)]
pub struct Function {
    pub id: u64,
    pub name: i64,
    pub system_name: i64,
    pub filename: i64,
    pub start_line: i64,
}

#[derive(Clone, Debug, Default)]
pub struct Mapping {
    pub id: u64,
    pub memory_start: u64,
    pub memory_limit: u64,
    pub file_offset: u64,
    pub filename: i64,
    pub build_id: i64,
}

#[derive(Clone, Debug, Default)]
pub struct Location {
    pub id: u64,
    pub mapping_id: u64,
    pub address: u64,
    pub line: Vec<Line>,
    pub is_folded: bool,
}

#[derive(Clone, Debug, Default)]
pub struct Sample {
    pub location_id: Vec<u64>,
    pub value: Vec<i64>,
    pub label: Vec<Label>,
}

#[derive(Clone, Debug, Default)]
pub struct Profile {
    pub sample_type: Vec<ValueType>,
    pub sample: Vec<Sample>,
    pub mapping: Vec<Mapping>,
    pub location: Vec<Location>,
    pub function: Vec<Function>,
    pub string_table: Vec<String>,
    pub time_nanos: i64,
    pub duration_nanos: i64,
    pub period_type: Option<ValueType>,
    pub period: i64,
}

/// The base-128 varint encoding of `n`, least significant group first.
pub open spec fn varint(n: u64) -> Seq<u8>
    decreases n,
{
    if n < 0x80 {
        seq![n as u8]
    } else {
        seq![((n % 0x80) + 0x80) as u8] + varint(n / 0x80)
    }
}

/// The single-byte key of a field with number below 16.
pub open spec fn tag_byte(num: u64, wire: u64) -> u8 {
    (num * 8 + wire) as u8
}

/// A varint field; omitted when zero.
pub open spec fn enc_u64_field(num: u64, v: u64) -> Seq<u8> {
    if v == 0 {
        Seq::empty()
    } else {
        seq![tag_byte(num, 0)] + varint(v)
    }
}

/// An int64 field: the varint of its two's-complement bits; omitted when
/// zero.
pub open spec fn enc_i64_field(num: u64, v: i64) -> Seq<u8> {
    if v == 0 {
        Seq::empty()
    } else {
        seq![tag_byte(num, 0)] + varint(i64_bits(v))
    }
}

/// A bool field; omitted when false.
pub open spec fn enc_bool_field(num: u64, b: bool) -> Seq<u8> {
    if b {
        seq![tag_byte(num, 0), 1u8]
    } else {
        Seq::empty()
    }
}

/// A length-delimited field: key, payload length, payload.
pub open spec fn enc_len_field(num: u64, payload: Seq<u8>) -> Seq<u8> {
    seq![tag_byte(num, 2)] + varint(payload.len() as u64) + payload
}

/// The concatenated varints of a packed u64 list.
pub open spec fn varints_u64(vs: Seq<u64>) -> Seq<u8>
    decreases vs.len(),
{
    if vs.len() == 0 {
        Seq::empty()
    } else {
        varints_u64(vs.drop_last()) + varint(vs.last())
    }
}

/// The concatenated varints of a packed int64 list.
pub open spec fn varints_i64(vs: Seq<i64>) -> Seq<u8>
    decreases vs.len(),
{
    if vs.len() == 0 {
        Seq::empty()
    } else {
        varints_i64(vs.drop_last()) + varint(i64_bits(vs.last()))
    }
}

/// A packed repeated u64 field; omitted when empty.
pub open spec fn enc_packed_u64(num: u64, vs: Seq<u64>) -> Seq<u8> {
    if vs.len() == 0 {
        Seq::empty()
    } else {
        enc_len_field(num, varints_u64(vs))
    }
}

/// A packed repeated int64 field; omitted when empty.
pub open spec fn enc_packed_i64(num: u64, vs: Seq<i64>) -> Seq<u8> {
    if vs.len() == 0 {
        Seq::empty()
    } else {
        enc_len_field(num, varints_i64(vs))
    }
}

pub open spec fn enc_value_type(v: ValueType) -> Seq<u8> {
    enc_i64_field(1, v.typ) + enc_i64_field(2, v.unit)
}

pub open spec fn enc_label(l: Label) -> Seq<u8> {
    enc_i64_field(1, l.key) + enc_i64_field(2, l.str) + enc_i64_field(3, l.num) + enc_i64_field(
        4,
        l.num_unit,
    )
}

pub open spec fn enc_line(l: Line) -> Seq<u8> {
    enc_u64_field(1, l.function_id) + enc_i64_field(2, l.line)
}

pub open spec fn enc_function(f: Function) -> Seq<u8> {
    enc_u64_field(1, f.id) + enc_i64_field(2, f.name) + enc_i64_field(3, f.system_name)
        + enc_i64_field(4, f.filename) + enc_i64_field(5, f.start_line)
}

pub open spec fn enc_mapping(m: Mapping) -> Seq<u8> {
    enc_u64_field(1, m.id) + enc_u64_field(2, m.memory_start) + enc_u64_field(3, m.memory_limit)
        + enc_u64_field(4, m.file_offset) + enc_i64_field(5, m.filename) + enc_i64_field(
        6,
        m.build_id,
    )
}

pub open spec fn enc_lines(ls: Seq<Line>) -> Seq<u8>
    decreases ls.len(),
{
    if ls.len() == 0 {
        Seq::empty()
    } else {
        enc_lines(ls.drop_last()) + enc_len_field(4, enc_line(ls.last()))
    }
}

pub open spec fn enc_location(l: Location) -> Seq<u8> {
    enc_u64_field(1, l.id) + enc_u64_field(2, l.mapping_id) + enc_u64_field(3, l.address)
        + enc_lines(l.line@) + enc_bool_field(5, l.is_folded)
}

pub open spec fn enc_labels(ls: Seq<Label>) -> Seq<u8>
    decreases ls.len(),
{
    if ls.len() == 0 {
        Seq::empty()
    } else {
        enc_labels(ls.drop_last()) + enc_len_field(3, enc_label(ls.last()))
    }
}

pub open spec fn enc_sample(s: Sample) -> Seq<u8> {
    enc_packed_u64(1, s.location_id@) + enc_packed_i64(2, s.value@) + enc_labels(s.label@)
}

pub open spec fn enc_sample_types(vs: Seq<ValueType>) -> Seq<u8>
    decreases vs.len(),
{
    if vs.len() == 0 {
        Seq::empty()
    } else {
        enc_sample_types(vs.drop_last()) + enc_len_field(1, enc_value_type(vs.last()))
    }
}

pub open spec fn enc_samples(vs: Seq<Sample>) -> Seq<u8>
    decreases vs.len(),
{
    if vs.len() == 0 {
        Seq::empty()
    } else {
        enc_samples(vs.drop_last()) + enc_len_field(2, enc_sample(vs.last()))
    }
}

pub open spec fn enc_mappings(vs: Seq<Mapping>) -> Seq<u8>
    decreases vs.len(),
{
    if vs.len() == 0 {
        Seq::empty()
    } else {
        enc_mappings(vs.drop_last()) + enc_len_field(3, enc_mapping(vs.last()))
    }
}

pub open spec fn enc_locations(vs: Seq<Location>) -> Seq<u8>
    decreases vs.len(),
{
    if vs.len() == 0 {
        Seq::empty()
    } else {
        enc_locations(vs.drop_last()) + enc_len_field(4, enc_location(vs.last()))
    }
}

pub open spec fn enc_functions(vs: Seq<Function>) -> Seq<u8>
    decreases vs.len(),
{
    if vs.len() == 0 {
        Seq::empty()
    } else {
        enc_functions(vs.drop_last()) + enc_len_field(5, enc_function(vs.last()))
    }
}

pub open spec fn enc_strings(vs: Seq<String>) -> Seq<u8>
    decreases vs.len(),
{
    if vs.len() == 0 {
        Seq::empty()
    } else {
        enc_strings(vs.drop_last()) + enc_len_field(
            6,
            vstd::utf8::encode_utf8(vs.last()@),
        )
    }
}

/// The full proto3 encoding of a pprof profile message, fields in
/// schema order.
pub open spec fn enc_profile(p: Profile) -> Seq<u8> {
    enc_sample_types(p.sample_type@) + (enc_samples(p.sample@) + (enc_mappings(p.mapping@) + (
    enc_locations(p.location@) + (enc_functions(p.function@) + (enc_strings(p.string_table@) + (
    enc_i64_field(9, p.time_nanos) + (enc_i64_field(10, p.duration_nanos) + ((match p.period_type {
        Some(v) => enc_len_field(11, enc_value_type(v)),
        None => Seq::empty(),
    }) + enc_i64_field(12, p.period)))))))))
}

// ---------------------------------------------------------------------
// Re-reading the wire format. These functions describe how a proto3
// reader walks the bytes the encoder emits, so that what a consumer
// re-parses out of a serialized buffer can be pinned down exactly.
// ---------------------------------------------------------------------

/// One field a proto3 reader yields: a varint value or a
/// length-delimited payload.
pub enum WireField {
    Varint(int),
    Bytes(Seq<u8>),
}

/// Reads one varint: its value and the remaining bytes.
pub open spec fn vdec(s: Seq<u8>) -> Option<(int, Seq<u8>)>
    decreases s.len(),
{
    if s.len() == 0 {
        None
    } else {
        let b = s[0];
        if b < 0x80 {
            Some((b as int, s.drop_first()))
        } else {
            match vdec(s.drop_first()) {
                Some((m, rest)) => Some(((b - 0x80) + 128 * m, rest)),
                None => None,
            }
        }
    }
}

proof fn lemma_vdec_shrinks(s: Seq<u8>)
    ensures
        vdec(s) matches Some(pr) ==> pr.1.len() < s.len(),
    decreases s.len(),
{
    if s.len() != 0 && s[0] >= 0x80 {
        lemma_vdec_shrinks(s.drop_first());
    }
}

/// Reading a varint undoes writing one, whatever follows it.
proof fn lemma_vdec_varint(n: u64, rest: Seq<u8>)
    ensures
        vdec(varint(n) + rest) == Some((n as int, rest)),
    decreases n,
{
    let s = varint(n) + rest;
    if n < 0x80 {
        assert(varint(n) == seq![n as u8]);
        assert(s[0] == n as u8);
        assert(s.drop_first() =~= rest);
    } else {
        assert(n / 0x80 < n) by (nonlinear_arith)
            requires
                n >= 0x80,
        ;
        let b = ((n % 0x80) + 0x80) as u8;
        assert(varint(n) == seq![b] + varint(n / 0x80));
        assert(s[0] == b);
        assert(s.drop_first() =~= varint(n / 0x80) + rest);
        lemma_vdec_varint(n / 0x80, rest);
        vstd::arithmetic::div_mod::lemma_fundamental_div_mod(n as int, 128);
        assert((b - 0x80) + 128 * ((n / 0x80) as int) == n);
    }
}

proof fn lemma_varint_len_bound(n: u64, k: nat)
    requires
        k >= 1,
        n < vstd::arithmetic::power2::pow2(7 * k),
    ensures
        varint(n).len() <= k,
    decreases k,
{
    if n >= 0x80 {
        vstd::arithmetic::power2::lemma2_to64();
        if k == 1 {
            assert(false);
        } else {
            vstd::arithmetic::power2::lemma_pow2_adds(7, 7 * (k - 1) as nat);
            assert(n / 0x80 < vstd::arithmetic::power2::pow2(7 * (k - 1) as nat))
                by (nonlinear_arith)
                requires
                    n < 128 * vstd::arithmetic::power2::pow2(7 * (k - 1) as nat),
            ;
            lemma_varint_len_bound(n / 0x80, (k - 1) as nat);
        }
    }
}

/// A varint takes at most ten bytes.
proof fn lemma_varint_len(n: u64)
    ensures
        varint(n).len() <= 10,
{
    vstd::arithmetic::power2::lemma2_to64();
    vstd::arithmetic::power2::lemma_pow2_adds(64, 6);
    assert(n < vstd::arithmetic::power2::pow2(70)) by (nonlinear_arith)
        requires
            n <= 0xffff_ffff_ffff_ffff,
            vstd::arithmetic::power2::pow2(70) == vstd::arithmetic::power2::pow2(64)
                * vstd::arithmetic::power2::pow2(6),
            vstd::arithmetic::power2::pow2(64) == 0x1_0000_0000_0000_0000,
            vstd::arithmetic::power2::pow2(6) == 64,
    ;
    lemma_varint_len_bound(n, 10);
}

/// Walks a proto3 message as a reader does: a varint key whose low
/// three bits pick the wire type, then a varint value or a
/// length-delimited payload, until the bytes run out. `None` on any
/// malformed or unexpected input.
pub open spec fn parse_fields(s: Seq<u8>) -> Option<Seq<(int, WireField)>>
    decreases s.len(),
    via parse_fields_decreases
{
    if s.len() == 0 {
        Some(Seq::empty())
    } else {
        match vdec(s) {
            None => None,
            Some((key, r1)) => {
                let field = key / 8;
                let wire = key % 8;
                if wire == 0 {
                    match vdec(r1) {
                        None => None,
                        Some((v, r2)) => match parse_fields(r2) {
                            None => None,
                            Some(fs) => Some(seq![(field, WireField::Varint(v))] + fs),
                        },
                    }
                } else if wire == 2 {
                    match vdec(r1) {
                        None => None,
                        Some((len, r2)) => if 0 <= len <= r2.len() {
                            match parse_fields(r2.skip(len)) {
                                None => None,
                                Some(fs) => Some(
                                    seq![(field, WireField::Bytes(r2.take(len)))] + fs,
                                ),
                            }
                        } else {
                            None
                        },
                    }
                } else {
                    None
                }
            },
        }
    }
}

#[via_fn]
proof fn parse_fields_decreases(s: Seq<u8>) {
    lemma_vdec_shrinks(s);
    if s.len() != 0 {
        match vdec(s) {
            None => {},
            Some((key, r1)) => {
                lemma_vdec_shrinks(r1);
            },
        }
    }
}

proof fn lemma_tag_split(num: u64, wire: u64)
    requires
        1 <= num <= 15,
        wire < 8,
    ensures
        tag_byte(num, wire) < 0x80,
        (tag_byte(num, wire) as int) / 8 == num,
        (tag_byte(num, wire) as int) % 8 == wire,
{
    assert((num * 8 + wire) / 8 == num && (num * 8 + wire) % 8 == wire) by (nonlinear_arith)
        requires
            1 <= num <= 15,
            wire < 8,
    ;
}

proof fn lemma_parse_u64_field(num: u64, v: u64, rest: Seq<u8>)
    requires
        1 <= num <= 15,
    ensures
        match parse_fields(rest) {
            Some(fs) => parse_fields(enc_u64_field(num, v) + rest) == (if v == 0 {
                Some(fs)
            } else {
                Some(seq![(num as int, WireField::Varint(v as int))] + fs)
            }),
            None => parse_fields(enc_u64_field(num, v) + rest) is None,
        },
{
    if v == 0 {
        assert(enc_u64_field(num, v) + rest =~= rest);
    } else {
        let tag = tag_byte(num, 0);
        lemma_tag_split(num, 0);
        let s = enc_u64_field(num, v) + rest;
        assert(s[0] == tag);
        assert(s.drop_first() =~= varint(v) + rest);
        lemma_vdec_varint(v, rest);
        assert(vdec(s) == Some((tag as int, varint(v) + rest)));
    }
}

proof fn lemma_parse_i64_field(num: u64, v: i64, rest: Seq<u8>)
    requires
        1 <= num <= 15,
    ensures
        match parse_fields(rest) {
            Some(fs) => parse_fields(enc_i64_field(num, v) + rest) == (if v == 0 {
                Some(fs)
            } else {
                Some(seq![(num as int, WireField::Varint(i64_bits(v) as int))] + fs)
            }),
            None => parse_fields(enc_i64_field(num, v) + rest) is None,
        },
{
    if v == 0 {
        assert(enc_i64_field(num, v) + rest =~= rest);
    } else {
        let tag = tag_byte(num, 0);
        lemma_tag_split(num, 0);
        let s = enc_i64_field(num, v) + rest;
        assert(s[0] == tag);
        assert(s.drop_first() =~= varint(i64_bits(v)) + rest);
        lemma_vdec_varint(i64_bits(v), rest);
        assert(vdec(s) == Some((tag as int, varint(i64_bits(v)) + rest)));
    }
}

proof fn lemma_parse_bool_field(num: u64, b: bool, rest: Seq<u8>)
    requires
        1 <= num <= 15,
    ensures
        match parse_fields(rest) {
            Some(fs) => parse_fields(enc_bool_field(num, b) + rest) == (if b {
                Some(seq![(num as int, WireField::Varint(1))] + fs)
            } else {
                Some(fs)
            }),
            None => parse_fields(enc_bool_field(num, b) + rest) is None,
        },
{
    if !b {
        assert(enc_bool_field(num, b) + rest =~= rest);
    } else {
        let tag = tag_byte(num, 0);
        lemma_tag_split(num, 0);
        let s = enc_bool_field(num, b) + rest;
        assert(s[0] == tag);
        assert(s.drop_first() =~= seq![1u8] + rest);
        assert(vdec(seq![1u8] + rest) == Some((1int, rest))) by {
            assert((seq![1u8] + rest)[0] == 1u8);
            assert((seq![1u8] + rest).drop_first() =~= rest);
        }
        assert(vdec(s) == Some((tag as int, seq![1u8] + rest)));
    }
}

proof fn lemma_parse_len_field(num: u64, payload: Seq<u8>, rest: Seq<u8>)
    requires
        1 <= num <= 15,
        payload.len() <= u64::MAX,
    ensures
        match parse_fields(rest) {
            Some(fs) => parse_fields(enc_len_field(num, payload) + rest) == Some(
                seq![(num as int, WireField::Bytes(payload))] + fs,
            ),
            None => parse_fields(enc_len_field(num, payload) + rest) is None,
        },
{
    let tag = tag_byte(num, 2);
    lemma_tag_split(num, 2);
    let s = enc_len_field(num, payload) + rest;
    let lv = payload.len() as u64;
    assert(s[0] == tag);
    assert(s.drop_first() =~= varint(lv) + (payload + rest));
    lemma_vdec_varint(lv, payload + rest);
    assert(vdec(s) == Some((tag as int, varint(lv) + (payload + rest))));
    let r2 = payload + rest;
    assert(r2.take(lv as int) =~= payload);
    assert(r2.skip(lv as int) =~= rest);
}

proof fn lemma_enc_u64_field_len(num: u64, v: u64)
    ensures
        enc_u64_field(num, v).len() <= 11,
{
    if v != 0 {
        lemma_varint_len(v);
    }
}

proof fn lemma_enc_i64_field_len(num: u64, v: i64)
    ensures
        enc_i64_field(num, v).len() <= 11,
{
    if v != 0 {
        lemma_varint_len(i64_bits(v));
    }
}

proof fn lemma_enc_value_type_len(v: ValueType)
    ensures
        enc_value_type(v).len() <= 22,
{
    lemma_enc_i64_field_len(1, v.typ);
    lemma_enc_i64_field_len(2, v.unit);
}

proof fn lemma_enc_label_len(l: Label)
    ensures
        enc_label(l).len() <= 44,
{
    lemma_enc_i64_field_len(1, l.key);
    lemma_enc_i64_field_len(2, l.str);
    lemma_enc_i64_field_len(3, l.num);
    lemma_enc_i64_field_len(4, l.num_unit);
}

proof fn lemma_enc_line_len(l: Line)
    ensures
        enc_line(l).len() <= 22,
{
    lemma_enc_u64_field_len(1, l.function_id);
    lemma_enc_i64_field_len(2, l.line);
}

proof fn lemma_enc_function_len(f: Function)
    ensures
        enc_function(f).len() <= 55,
{
    lemma_enc_u64_field_len(1, f.id);
    lemma_enc_i64_field_len(2, f.name);
    lemma_enc_i64_field_len(3, f.system_name);
    lemma_enc_i64_field_len(4, f.filename);
    lemma_enc_i64_field_len(5, f.start_line);
}

proof fn lemma_enc_mapping_len(m: Mapping)
    ensures
        enc_mapping(m).len() <= 66,
{
    lemma_enc_u64_field_len(1, m.id);
    lemma_enc_u64_field_len(2, m.memory_start);
    lemma_enc_u64_field_len(3, m.memory_limit);
    lemma_enc_u64_field_len(4, m.file_offset);
    lemma_enc_i64_field_len(5, m.filename);
    lemma_enc_i64_field_len(6, m.build_id);
}

proof fn lemma_enc_lines_len(ls: Seq<Line>)
    ensures
        enc_lines(ls).len() <= 33 * ls.len(),
    decreases ls.len(),
{
    if ls.len() != 0 {
        lemma_enc_lines_len(ls.drop_last());
        lemma_enc_line_len(ls.last());
        lemma_varint_len(enc_line(ls.last()).len() as u64);
    }
}

proof fn lemma_enc_location_len(l: Location)
    ensures
        enc_location(l).len() <= 35 + 33 * l.line@.len(),
{
    lemma_enc_u64_field_len(1, l.id);
    lemma_enc_u64_field_len(2, l.mapping_id);
    lemma_enc_u64_field_len(3, l.address);
    lemma_enc_lines_len(l.line@);
}

proof fn lemma_varints_u64_len(vs: Seq<u64>)
    ensures
        varints_u64(vs).len() <= 10 * vs.len(),
    decreases vs.len(),
{
    if vs.len() != 0 {
        lemma_varints_u64_len(vs.drop_last());
        lemma_varint_len(vs.last());
    }
}

proof fn lemma_varints_i64_len(vs: Seq<i64>)
    ensures
        varints_i64(vs).len() <= 10 * vs.len(),
    decreases vs.len(),
{
    if vs.len() != 0 {
        lemma_varints_i64_len(vs.drop_last());
        lemma_varint_len(i64_bits(vs.last()));
    }
}

proof fn lemma_enc_labels_len(ls: Seq<Label>)
    ensures
        enc_labels(ls).len() <= 55 * ls.len(),
    decreases ls.len(),
{
    if ls.len() != 0 {
        lemma_enc_labels_len(ls.drop_last());
        lemma_enc_label_len(ls.last());
        lemma_varint_len(enc_label(ls.last()).len() as u64);
    }
}

proof fn lemma_enc_sample_len(s: Sample)
    ensures
        enc_sample(s).len() <= 22 + 10 * s.location_id@.len() + 10 * s.value@.len() + 55
            * s.label@.len(),
{
    lemma_varints_u64_len(s.location_id@);
    lemma_varints_i64_len(s.value@);
    lemma_enc_labels_len(s.label@);
    if s.location_id@.len() != 0 {
        lemma_varint_len(varints_u64(s.location_id@).len() as u64);
    }
    if s.value@.len() != 0 {
        lemma_varint_len(varints_i64(s.value@).len() as u64);
    }
}

proof fn lemma_encode_utf8_len(cs: Seq<char>)
    ensures
        vstd::utf8::encode_utf8(cs).len() <= 4 * cs.len(),
    decreases cs.len(),
{
    if cs.len() != 0 {
        lemma_encode_utf8_len(cs.drop_first());
    }
}

/// What a reader yields for the sample-type section: one
/// length-delimited field 1 entry per sample type, in order.
pub open spec fn fields_of_sample_types(vs: Seq<ValueType>) -> Seq<(int, WireField)> {
    Seq::new(vs.len(), |i: int| (1int, WireField::Bytes(enc_value_type(vs[i]))))
}

/// One field 2 entry per sample, in order.
pub open spec fn fields_of_samples(vs: Seq<Sample>) -> Seq<(int, WireField)> {
    Seq::new(vs.len(), |i: int| (2int, WireField::Bytes(enc_sample(vs[i]))))
}

/// One field 3 entry per mapping, in order.
pub open spec fn fields_of_mappings(vs: Seq<Mapping>) -> Seq<(int, WireField)> {
    Seq::new(vs.len(), |i: int| (3int, WireField::Bytes(enc_mapping(vs[i]))))
}

/// One field 4 entry per location, in order.
pub open spec fn fields_of_locations(vs: Seq<Location>) -> Seq<(int, WireField)> {
    Seq::new(vs.len(), |i: int| (4int, WireField::Bytes(enc_location(vs[i]))))
}

/// One field 5 entry per function, in order.
pub open spec fn fields_of_functions(vs: Seq<Function>) -> Seq<(int, WireField)> {
    Seq::new(vs.len(), |i: int| (5int, WireField::Bytes(enc_function(vs[i]))))
}

/// One field 6 entry per string-table entry, in order, holding the
/// string's UTF-8 bytes.
pub open spec fn fields_of_strings(vs: Seq<String>) -> Seq<(int, WireField)> {
    Seq::new(vs.len(), |i: int| (6int, WireField::Bytes(vstd::utf8::encode_utf8(vs[i]@))))
}

proof fn lemma_parse_sample_types(vs: Seq<ValueType>, rest: Seq<u8>)
    ensures
        match parse_fields(rest) {
            Some(fs) => parse_fields(enc_sample_types(vs) + rest) == Some(
                fields_of_sample_types(vs) + fs,
            ),
            None => parse_fields(enc_sample_types(vs) + rest) is None,
        },
    decreases vs.len(),
{
    if vs.len() == 0 {
        assert(enc_sample_types(vs) + rest =~= rest);
        match parse_fields(rest) {
            Some(fs) => {
                assert(fields_of_sample_types(vs) + fs =~= fs);
            },
            None => {},
        }
    } else {
        let prev = vs.drop_last();
        let payload = enc_value_type(vs.last());
        lemma_enc_value_type_len(vs.last());
        let rest2 = enc_len_field(1, payload) + rest;
        assert(enc_sample_types(vs) + rest =~= enc_sample_types(prev) + rest2);
        lemma_parse_len_field(1, payload, rest);
        lemma_parse_sample_types(prev, rest2);
        match parse_fields(rest) {
            Some(fs) => {
                assert(fields_of_sample_types(prev) + (seq![
                    (1int, WireField::Bytes(payload)),
                ] + fs) =~= fields_of_sample_types(vs) + fs);
            },
            None => {},
        }
    }
}

proof fn lemma_parse_samples(vs: Seq<Sample>, rest: Seq<u8>)
    requires
        forall|i: int| 0 <= i < vs.len() ==> {
            let s = #[trigger] vs[i];
            &&& s.location_id@.len() <= 0x1_0000_0000
            &&& s.value@.len() <= 0x1_0000_0000
            &&& s.label@.len() <= 0x1_0000_0000
        },
    ensures
        match parse_fields(rest) {
            Some(fs) => parse_fields(enc_samples(vs) + rest) == Some(fields_of_samples(vs) + fs),
            None => parse_fields(enc_samples(vs) + rest) is None,
        },
    decreases vs.len(),
{
    if vs.len() == 0 {
        assert(enc_samples(vs) + rest =~= rest);
        match parse_fields(rest) {
            Some(fs) => {
                assert(fields_of_samples(vs) + fs =~= fs);
            },
            None => {},
        }
    } else {
        let prev = vs.drop_last();
        let payload = enc_sample(vs.last());
        assert(vs[vs.len() - 1] == vs.last());
        lemma_enc_sample_len(vs.last());
        let rest2 = enc_len_field(2, payload) + rest;
        assert(enc_samples(vs) + rest =~= enc_samples(prev) + rest2);
        lemma_parse_len_field(2, payload, rest);
        lemma_parse_samples(prev, rest2);
        match parse_fields(rest) {
            Some(fs) => {
                assert(fields_of_samples(prev) + (seq![(2int, WireField::Bytes(payload))] + fs)
                    =~= fields_of_samples(vs) + fs);
            },
            None => {},
        }
    }
}

proof fn lemma_parse_mappings(vs: Seq<Mapping>, rest: Seq<u8>)
    ensures
        match parse_fields(rest) {
            Some(fs) => parse_fields(enc_mappings(vs) + rest) == Some(fields_of_mappings(vs) + fs),
            None => parse_fields(enc_mappings(vs) + rest) is None,
        },
    decreases vs.len(),
{
    if vs.len() == 0 {
        assert(enc_mappings(vs) + rest =~= rest);
        match parse_fields(rest) {
            Some(fs) => {
                assert(fields_of_mappings(vs) + fs =~= fs);
            },
            None => {},
        }
    } else {
        let prev = vs.drop_last();
        let payload = enc_mapping(vs.last());
        lemma_enc_mapping_len(vs.last());
        let rest2 = enc_len_field(3, payload) + rest;
        assert(enc_mappings(vs) + rest =~= enc_mappings(prev) + rest2);
        lemma_parse_len_field(3, payload, rest);
        lemma_parse_mappings(prev, rest2);
        match parse_fields(rest) {
            Some(fs) => {
                assert(fields_of_mappings(prev) + (seq![(3int, WireField::Bytes(payload))] + fs)
                    =~= fields_of_mappings(vs) + fs);
            },
            None => {},
        }
    }
}

proof fn lemma_parse_locations(vs: Seq<Location>, rest: Seq<u8>)
    requires
        forall|i: int| 0 <= i < vs.len() ==> (#[trigger] vs[i]).line@.len() <= 0x1_0000_0000,
    ensures
        match parse_fields(rest) {
            Some(fs) => parse_fields(enc_locations(vs) + rest) == Some(
                fields_of_locations(vs) + fs,
            ),
            None => parse_fields(enc_locations(vs) + rest) is None,
        },
    decreases vs.len(),
{
    if vs.len() == 0 {
        assert(enc_locations(vs) + rest =~= rest);
        match parse_fields(rest) {
            Some(fs) => {
                assert(fields_of_locations(vs) + fs =~= fs);
            },
            None => {},
        }
    } else {
        let prev = vs.drop_last();
        let payload = enc_location(vs.last());
        assert(vs[vs.len() - 1] == vs.last());
        lemma_enc_location_len(vs.last());
        let rest2 = enc_len_field(4, payload) + rest;
        assert(enc_locations(vs) + rest =~= enc_locations(prev) + rest2);
        lemma_parse_len_field(4, payload, rest);
        lemma_parse_locations(prev, rest2);
        match parse_fields(rest) {
            Some(fs) => {
                assert(fields_of_locations(prev) + (seq![(4int, WireField::Bytes(payload))] + fs)
                    =~= fields_of_locations(vs) + fs);
            },
            None => {},
        }
    }
}

proof fn lemma_parse_functions(vs: Seq<Function>, rest: Seq<u8>)
    ensures
        match parse_fields(rest) {
            Some(fs) => parse_fields(enc_functions(vs) + rest) == Some(
                fields_of_functions(vs) + fs,
            ),
            None => parse_fields(enc_functions(vs) + rest) is None,
        },
    decreases vs.len(),
{
    if vs.len() == 0 {
        assert(enc_functions(vs) + rest =~= rest);
        match parse_fields(rest) {
            Some(fs) => {
                assert(fields_of_functions(vs) + fs =~= fs);
            },
            None => {},
        }
    } else {
        let prev = vs.drop_last();
        let payload = enc_function(vs.last());
        lemma_enc_function_len(vs.last());
        let rest2 = enc_len_field(5, payload) + rest;
        assert(enc_functions(vs) + rest =~= enc_functions(prev) + rest2);
        lemma_parse_len_field(5, payload, rest);
        lemma_parse_functions(prev, rest2);
        match parse_fields(rest) {
            Some(fs) => {
                assert(fields_of_functions(prev) + (seq![(5int, WireField::Bytes(payload))] + fs)
                    =~= fields_of_functions(vs) + fs);
            },
            None => {},
        }
    }
}

proof fn lemma_parse_strings(vs: Seq<String>, rest: Seq<u8>)
    requires
        forall|i: int| 0 <= i < vs.len() ==> (#[trigger] vs[i])@.len() <= 0x1_0000_0000,
    ensures
        match parse_fields(rest) {
            Some(fs) => parse_fields(enc_strings(vs) + rest) == Some(fields_of_strings(vs) + fs),
            None => parse_fields(enc_strings(vs) + rest) is None,
        },
    decreases vs.len(),
{
    if vs.len() == 0 {
        assert(enc_strings(vs) + rest =~= rest);
        match parse_fields(rest) {
            Some(fs) => {
                assert(fields_of_strings(vs) + fs =~= fs);
            },
            None => {},
        }
    } else {
        let prev = vs.drop_last();
        let payload = vstd::utf8::encode_utf8(vs.last()@);
        assert(vs[vs.len() - 1] == vs.last());
        lemma_encode_utf8_len(vs.last()@);
        let rest2 = enc_len_field(6, payload) + rest;
        assert(enc_strings(vs) + rest =~= enc_strings(prev) + rest2);
        lemma_parse_len_field(6, payload, rest);
        lemma_parse_strings(prev, rest2);
        match parse_fields(rest) {
            Some(fs) => {
                assert(fields_of_strings(prev) + (seq![(6int, WireField::Bytes(payload))] + fs)
                    =~= fields_of_strings(vs) + fs);
            },
            None => {},
        }
    }
}

/// A message whose nested collections and strings are of addressable
/// size, so every length-delimited payload's length fits the wire.
pub open spec fn parseable(p: Profile) -> bool {
    &&& forall|i: int| 0 <= i < p.location@.len() ==> (#[trigger] p.location@[i]).line@.len()
        <= 0x1_0000_0000
    &&& forall|i: int| 0 <= i < p.sample@.len() ==> {
        let s = #[trigger] p.sample@[i];
        &&& s.location_id@.len() <= 0x1_0000_0000
        &&& s.value@.len() <= 0x1_0000_0000
        &&& s.label@.len() <= 0x1_0000_0000
    }
    &&& forall|i: int| 0 <= i < p.string_table@.len() ==> (#[trigger] p.string_table@[i])@.len()
        <= 0x1_0000_0000
}

/// Everything a proto3 reader yields from an encoded profile: the six
/// repeated sections in schema order, then the non-default scalars and
/// the period type.
pub open spec fn profile_fields(p: Profile) -> Seq<(int, WireField)> {
    fields_of_sample_types(p.sample_type@) + (fields_of_samples(p.sample@) + (fields_of_mappings(
        p.mapping@,
    ) + (fields_of_locations(p.location@) + (fields_of_functions(p.function@) + (
    fields_of_strings(p.string_table@) + ((if p.time_nanos == 0 {
        Seq::empty()
    } else {
        seq![(9int, WireField::Varint(i64_bits(p.time_nanos) as int))]
    }) + ((if p.duration_nanos == 0 {
        Seq::empty()
    } else {
        seq![(10int, WireField::Varint(i64_bits(p.duration_nanos) as int))]
    }) + ((match p.period_type {
        Some(v) => seq![(11int, WireField::Bytes(enc_value_type(v)))],
        None => Seq::empty(),
    }) + (if p.period == 0 {
        Seq::empty()
    } else {
        seq![(12int, WireField::Varint(i64_bits(p.period) as int))]
    })))))))))
}

/// Re-reading an encoded profile succeeds and yields exactly
/// [`profile_fields`]: what the encoder wrote is what a reader walks
/// back out.
#[verifier::rlimit(100)]
pub proof fn lemma_parse_profile(p: Profile)
    requires
        parseable(p),
    ensures
        parse_fields(enc_profile(p)) == Some(profile_fields(p)),
{
    let t9 = enc_i64_field(9, p.time_nanos);
    let t10 = enc_i64_field(10, p.duration_nanos);
    let t11 = match p.period_type {
        Some(v) => enc_len_field(11, enc_value_type(v)),
        None => Seq::<u8>::empty(),
    };
    let t12 = enc_i64_field(12, p.period);
    let f9 = if p.time_nanos == 0 {
        Seq::<(int, WireField)>::empty()
    } else {
        seq![(9int, WireField::Varint(i64_bits(p.time_nanos) as int))]
    };
    let f10 = if p.duration_nanos == 0 {
        Seq::<(int, WireField)>::empty()
    } else {
        seq![(10int, WireField::Varint(i64_bits(p.duration_nanos) as int))]
    };
    let f11 = match p.period_type {
        Some(v) => seq![(11int, WireField::Bytes(enc_value_type(v)))],
        None => Seq::<(int, WireField)>::empty(),
    };
    let f12 = if p.period == 0 {
        Seq::<(int, WireField)>::empty()
    } else {
        seq![(12int, WireField::Varint(i64_bits(p.period) as int))]
    };
    // the scalar tail, back to front
    assert(parse_fields(Seq::<u8>::empty()) == Some(Seq::<(int, WireField)>::empty()));
    lemma_parse_i64_field(12, p.period, Seq::<u8>::empty());
    let s12 = t12 + Seq::<u8>::empty();
    assert(s12 =~= t12);
    assert(parse_fields(s12) == Some(f12)) by {
        if p.period != 0 {
            assert(f12 + Seq::<(int, WireField)>::empty() =~= f12);
        } else {
            assert(f12 =~= Seq::<(int, WireField)>::empty());
        }
    }
    let s11 = t11 + s12;
    assert(parse_fields(s11) == Some(f11 + f12)) by {
        match p.period_type {
            Some(v) => {
                lemma_enc_value_type_len(v);
                lemma_parse_len_field(11, enc_value_type(v), s12);
            },
            None => {
                assert(s11 =~= s12);
                assert(f11 + f12 =~= f12);
            },
        }
    }
    let s10 = t10 + s11;
    lemma_parse_i64_field(10, p.duration_nanos, s11);
    assert(parse_fields(s10) == Some(f10 + (f11 + f12))) by {
        if p.duration_nanos == 0 {
            assert(s10 =~= s11);
            assert(f10 + (f11 + f12) =~= f11 + f12);
        }
    }
    let s9 = t9 + s10;
    lemma_parse_i64_field(9, p.time_nanos, s10);
    assert(parse_fields(s9) == Some(f9 + (f10 + (f11 + f12)))) by {
        if p.time_nanos == 0 {
            assert(s9 =~= s10);
            assert(f9 + (f10 + (f11 + f12)) =~= f10 + (f11 + f12));
        }
    }
    // the repeated sections, back to front
    let s6 = enc_strings(p.string_table@) + s9;
    lemma_parse_strings(p.string_table@, s9);
    let f6 = fields_of_strings(p.string_table@) + (f9 + (f10 + (f11 + f12)));
    let s5 = enc_functions(p.function@) + s6;
    lemma_parse_functions(p.function@, s6);
    let f5 = fields_of_functions(p.function@) + f6;
    let s4 = enc_locations(p.location@) + s5;
    lemma_parse_locations(p.location@, s5);
    let f4 = fields_of_locations(p.location@) + f5;
    let s3 = enc_mappings(p.mapping@) + s4;
    lemma_parse_mappings(p.mapping@, s4);
    let f3 = fields_of_mappings(p.mapping@) + f4;
    let s2 = enc_samples(p.sample@) + s3;
    lemma_parse_samples(p.sample@, s3);
    let f2 = fields_of_samples(p.sample@) + f3;
    let s1 = enc_sample_types(p.sample_type@) + s2;
    lemma_parse_sample_types(p.sample_type@, s2);
    let f1 = fields_of_sample_types(p.sample_type@) + f2;
    assert(enc_profile(p) == s1);
    assert(parse_fields(s1) == Some(f1));
    assert(profile_fields(p) == f1);
}

/// Re-reading an encoded mapping: its first field is the mapping's id.
#[verifier::rlimit(100)]
proof fn lemma_parse_mapping_msg(m: Mapping)
    requires
        m.id != 0,
    ensures
        parse_fields(enc_mapping(m)) matches Some(fs) && fs.len() >= 1 && fs[0] == (
            1int,
            WireField::Varint(m.id as int),
        ),
{
    lemma_parse_i64_field(6, m.build_id, Seq::<u8>::empty());
    let s6 = enc_i64_field(6, m.build_id) + Seq::<u8>::empty();
    assert(s6 =~= enc_i64_field(6, m.build_id));
    let s5 = enc_i64_field(5, m.filename) + s6;
    lemma_parse_i64_field(5, m.filename, s6);
    let s4 = enc_u64_field(4, m.file_offset) + s5;
    lemma_parse_u64_field(4, m.file_offset, s5);
    let s3 = enc_u64_field(3, m.memory_limit) + s4;
    lemma_parse_u64_field(3, m.memory_limit, s4);
    let s2 = enc_u64_field(2, m.memory_start) + s3;
    lemma_parse_u64_field(2, m.memory_start, s3);
    let s1 = enc_u64_field(1, m.id) + s2;
    lemma_parse_u64_field(1, m.id, s2);
    assert(enc_mapping(m) =~= s1);
}

/// Re-reading an encoded location: its first field is the location's
/// id.
#[verifier::rlimit(100)]
proof fn lemma_parse_location_msg(l: Location)
    requires
        l.id != 0,
        l.line@.len() <= 0x1_0000_0000,
    ensures
        parse_fields(enc_location(l)) matches Some(fs) && fs.len() >= 1 && fs[0] == (
            1int,
            WireField::Varint(l.id as int),
        ),
{
    lemma_parse_bool_field(5, l.is_folded, Seq::<u8>::empty());
    let s5 = enc_bool_field(5, l.is_folded) + Seq::<u8>::empty();
    assert(s5 =~= enc_bool_field(5, l.is_folded));
    let s4 = enc_lines(l.line@) + s5;
    assert(parse_fields(s4) is Some) by {
        lemma_parse_lines(l.line@, s5);
    }
    let s3 = enc_u64_field(3, l.address) + s4;
    lemma_parse_u64_field(3, l.address, s4);
    let s2 = enc_u64_field(2, l.mapping_id) + s3;
    lemma_parse_u64_field(2, l.mapping_id, s3);
    let s1 = enc_u64_field(1, l.id) + s2;
    lemma_parse_u64_field(1, l.id, s2);
    assert(enc_location(l) =~= s1);
}

/// Re-reading a location's line section: one field 4 entry per line.
proof fn lemma_parse_lines(ls: Seq<Line>, rest: Seq<u8>)
    ensures
        match parse_fields(rest) {
            Some(fs) => parse_fields(enc_lines(ls) + rest) matches Some(_),
            None => parse_fields(enc_lines(ls) + rest) is None,
        },
    decreases ls.len(),
{
    if ls.len() == 0 {
        assert(enc_lines(ls) + rest =~= rest);
    } else {
        let prev = ls.drop_last();
        let payload = enc_line(ls.last());
        lemma_enc_line_len(ls.last());
        let rest2 = enc_len_field(4, payload) + rest;
        assert(enc_lines(ls) + rest =~= enc_lines(prev) + rest2);
        lemma_parse_len_field(4, payload, rest);
        lemma_parse_lines(prev, rest2);
    }
}

/// Re-reading an encoded function: its first field is the function's
/// id.
#[verifier::rlimit(100)]
proof fn lemma_parse_function_msg(f: Function)
    requires
        f.id != 0,
    ensures
        parse_fields(enc_function(f)) matches Some(fs) && fs.len() >= 1 && fs[0] == (
            1int,
            WireField::Varint(f.id as int),
        ),
{
    lemma_parse_i64_field(5, f.start_line, Seq::<u8>::empty());
    let s5 = enc_i64_field(5, f.start_line) + Seq::<u8>::empty();
    assert(s5 =~= enc_i64_field(5, f.start_line));
    let s4 = enc_i64_field(4, f.filename) + s5;
    lemma_parse_i64_field(4, f.filename, s5);
    let s3 = enc_i64_field(3, f.system_name) + s4;
    lemma_parse_i64_field(3, f.system_name, s4);
    let s2 = enc_i64_field(2, f.name) + s3;
    lemma_parse_i64_field(2, f.name, s3);
    let s1 = enc_u64_field(1, f.id) + s2;
    lemma_parse_u64_field(1, f.id, s2);
    assert(enc_function(f) =~= s1);
}

/// In the re-parsed fields of an encoded profile, the i-th mapping
/// entry is a length-delimited payload whose own first field is that
/// mapping's id.
pub proof fn lemma_reparse_mapping_ids(p: Profile)
    requires
        forall|i: int| 0 <= i < p.mapping@.len() ==> (#[trigger] p.mapping@[i]).id != 0,
    ensures
        forall|i: int| 0 <= i < p.mapping@.len() ==> #[trigger] fields_of_mappings(p.mapping@)[i]
            == (3int, WireField::Bytes(enc_mapping(p.mapping@[i]))) && (parse_fields(
            enc_mapping(p.mapping@[i]),
        ) matches Some(fs) && fs.len() >= 1 && fs[0] == (
            1int,
            WireField::Varint(p.mapping@[i].id as int),
        )),
{
    assert forall|i: int| 0 <= i < p.mapping@.len() implies #[trigger] fields_of_mappings(
        p.mapping@,
    )[i] == (3int, WireField::Bytes(enc_mapping(p.mapping@[i]))) && (parse_fields(
        enc_mapping(p.mapping@[i]),
    ) matches Some(fs) && fs.len() >= 1 && fs[0] == (
        1int,
        WireField::Varint(p.mapping@[i].id as int),
    )) by {
        lemma_parse_mapping_msg(p.mapping@[i]);
    }
}

/// As [`lemma_reparse_mapping_ids`], for the location entries.
pub proof fn lemma_reparse_location_ids(p: Profile)
    requires
        parseable(p),
        forall|i: int| 0 <= i < p.location@.len() ==> (#[trigger] p.location@[i]).id != 0,
    ensures
        forall|i: int| 0 <= i < p.location@.len() ==> #[trigger] fields_of_locations(p.location@)[i]
            == (4int, WireField::Bytes(enc_location(p.location@[i]))) && (parse_fields(
            enc_location(p.location@[i]),
        ) matches Some(fs) && fs.len() >= 1 && fs[0] == (
            1int,
            WireField::Varint(p.location@[i].id as int),
        )),
{
    assert forall|i: int| 0 <= i < p.location@.len() implies #[trigger] fields_of_locations(
        p.location@,
    )[i] == (4int, WireField::Bytes(enc_location(p.location@[i]))) && (parse_fields(
        enc_location(p.location@[i]),
    ) matches Some(fs) && fs.len() >= 1 && fs[0] == (
        1int,
        WireField::Varint(p.location@[i].id as int),
    )) by {
        lemma_parse_location_msg(p.location@[i]);
    }
}

/// As [`lemma_reparse_mapping_ids`], for the function entries.
pub proof fn lemma_reparse_function_ids(p: Profile)
    requires
        forall|i: int| 0 <= i < p.function@.len() ==> (#[trigger] p.function@[i]).id != 0,
    ensures
        forall|i: int| 0 <= i < p.function@.len() ==> #[trigger] fields_of_functions(p.function@)[i]
            == (5int, WireField::Bytes(enc_function(p.function@[i]))) && (parse_fields(
            enc_function(p.function@[i]),
        ) matches Some(fs) && fs.len() >= 1 && fs[0] == (
            1int,
            WireField::Varint(p.function@[i].id as int),
        )),
{
    assert forall|i: int| 0 <= i < p.function@.len() implies #[trigger] fields_of_functions(
        p.function@,
    )[i] == (5int, WireField::Bytes(enc_function(p.function@[i]))) && (parse_fields(
        enc_function(p.function@[i]),
    ) matches Some(fs) && fs.len() >= 1 && fs[0] == (
        1int,
        WireField::Varint(p.function@[i].id as int),
    )) by {
        lemma_parse_function_msg(p.function@[i]);
    }
}

/// Appends the varint encoding of `n`.
fn put_varint(buf: &mut Vec<u8>, n: u64)
    ensures
        final(buf)@ == old(buf)@ + varint(n),
{
    let mut x = n;
    while x >= 0x80
        invariant
            buf@ + varint(x) == old(buf)@ + varint(n),
        decreases x,
    {
        let ghost pre = buf@;
        buf.push(((x % 0x80) as u8) + 0x80);
        proof {
            assert(x / 0x80 < x) by (nonlinear_arith)
                requires
                    x >= 0x80,
            ;
            assert(varint(x) == seq![((x % 0x80) + 0x80) as u8] + varint(x / 0x80));
            assert(buf@ + varint(x / 0x80) =~= pre + varint(x));
        }
        x = x / 0x80;
    }
    let ghost pre = buf@;
    buf.push(x as u8);
    proof {
        assert(varint(x) == seq![x as u8]);
        assert(buf@ =~= pre + varint(x));
    }
}

/// Appends a varint field, omitting it when zero.
fn put_u64_field(buf: &mut Vec<u8>, num: u64, v: u64)
    requires
        1 <= num <= 15,
    ensures
        final(buf)@ == old(buf)@ + enc_u64_field(num, v),
{
    if v != 0 {
        let ghost pre = buf@;
        buf.push((num * 8) as u8);
        put_varint(buf, v);
        proof {
            assert(buf@ =~= pre + enc_u64_field(num, v));
        }
    } else {
        proof {
            assert(buf@ =~= buf@ + enc_u64_field(num, v));
        }
    }
}

/// Appends an int64 field, omitting it when zero.
fn put_i64_field(buf: &mut Vec<u8>, num: u64, v: i64)
    requires
        1 <= num <= 15,
    ensures
        final(buf)@ == old(buf)@ + enc_i64_field(num, v),
{
    if v != 0 {
        let ghost pre = buf@;
        buf.push((num * 8) as u8);
        put_varint(buf, i64_to_bits(v));
        proof {
            assert(buf@ =~= pre + enc_i64_field(num, v));
        }
    } else {
        proof {
            assert(buf@ =~= buf@ + enc_i64_field(num, v));
        }
    }
}

/// Appends a bool field, omitting it when false.
fn put_bool_field(buf: &mut Vec<u8>, num: u64, b: bool)
    requires
        1 <= num <= 15,
    ensures
        final(buf)@ == old(buf)@ + enc_bool_field(num, b),
{
    if b {
        let ghost pre = buf@;
        buf.push((num * 8) as u8);
        buf.push(1);
        proof {
            assert(buf@ =~= pre + enc_bool_field(num, b));
        }
    } else {
        proof {
            assert(buf@ =~= buf@ + enc_bool_field(num, b));
        }
    }
}

/// Appends a length-delimited field holding `payload`.
fn put_len_field(buf: &mut Vec<u8>, num: u64, payload: Vec<u8>)
    requires
        1 <= num <= 15,
    ensures
        final(buf)@ == old(buf)@ + enc_len_field(num, payload@),
{
    let ghost pre = buf@;
    buf.push((num * 8 + 2) as u8);
    put_varint(buf, payload.len() as u64);
    let mut p = payload;
    buf.append(&mut p);
    proof {
        assert(buf@ =~= pre + enc_len_field(num, payload@));
    }
}

fn encode_value_type(v: &ValueType, out: &mut Vec<u8>)
    ensures
        final(out)@ == old(out)@ + enc_value_type(*v),
{
    let ghost pre = out@;
    put_i64_field(out, 1, v.typ);
    put_i64_field(out, 2, v.unit);
    proof {
        assert(out@ =~= pre + enc_value_type(*v));
    }
}

fn encode_label(l: &Label, out: &mut Vec<u8>)
    ensures
        final(out)@ == old(out)@ + enc_label(*l),
{
    let ghost pre = out@;
    put_i64_field(out, 1, l.key);
    put_i64_field(out, 2, l.str);
    put_i64_field(out, 3, l.num);
    put_i64_field(out, 4, l.num_unit);
    proof {
        assert(out@ =~= pre + enc_label(*l));
    }
}

fn encode_line(l: &Line, out: &mut Vec<u8>)
    ensures
        final(out)@ == old(out)@ + enc_line(*l),
{
    let ghost pre = out@;
    put_u64_field(out, 1, l.function_id);
    put_i64_field(out, 2, l.line);
    proof {
        assert(out@ =~= pre + enc_line(*l));
    }
}

fn encode_function(f: &Function, out: &mut Vec<u8>)
    ensures
        final(out)@ == old(out)@ + enc_function(*f),
{
    let ghost pre = out@;
    put_u64_field(out, 1, f.id);
    put_i64_field(out, 2, f.name);
    put_i64_field(out, 3, f.system_name);
    put_i64_field(out, 4, f.filename);
    put_i64_field(out, 5, f.start_line);
    proof {
        assert(out@ =~= pre + enc_function(*f));
    }
}

fn encode_mapping(m: &Mapping, out: &mut Vec<u8>)
    ensures
        final(out)@ == old(out)@ + enc_mapping(*m),
{
    let ghost pre = out@;
    put_u64_field(out, 1, m.id);
    put_u64_field(out, 2, m.memory_start);
    put_u64_field(out, 3, m.memory_limit);
    put_u64_field(out, 4, m.file_offset);
    put_i64_field(out, 5, m.filename);
    put_i64_field(out, 6, m.build_id);
    proof {
        assert(out@ =~= pre + enc_mapping(*m));
    }
}

fn encode_location(l: &Location, out: &mut Vec<u8>)
    ensures
        final(out)@ == old(out)@ + enc_location(*l),
{
    let ghost pre = out@;
    put_u64_field(out, 1, l.id);
    put_u64_field(out, 2, l.mapping_id);
    put_u64_field(out, 3, l.address);
    let ghost mid = out@;
    proof {
        assert(l.line@.subrange(0, 0) =~= Seq::<Line>::empty());
        assert(out@ =~= mid + enc_lines(l.line@.subrange(0, 0)));
    }
    let n = l.line.len();
    let mut i: usize = 0;
    while i < n
        invariant
            i <= n,
            n == l.line@.len(),
            out@ == mid + enc_lines(l.line@.subrange(0, i as int)),
        decreases n - i,
    {
        let mut tmp: Vec<u8> = Vec::new();
        encode_line(&l.line[i], &mut tmp);
        put_len_field(out, 4, tmp);
        proof {
            assert(l.line@.subrange(0, i + 1).drop_last() =~= l.line@.subrange(0, i as int));
            assert(l.line@.subrange(0, i + 1).last() == l.line@[i as int]);
            assert(out@ =~= mid + enc_lines(l.line@.subrange(0, i + 1)));
        }
        i += 1;
    }
    proof {
        assert(l.line@.subrange(0, n as int) =~= l.line@);
    }
    put_bool_field(out, 5, l.is_folded);
    proof {
        assert(out@ =~= pre + enc_location(*l));
    }
}

fn encode_sample(s: &Sample, out: &mut Vec<u8>)
    ensures
        final(out)@ == old(out)@ + enc_sample(*s),
{
    let ghost pre = out@;
    if s.location_id.len() > 0 {
        let mut tmp: Vec<u8> = Vec::new();
        proof {
            assert(s.location_id@.subrange(0, 0) =~= Seq::<u64>::empty());
            assert(tmp@ =~= varints_u64(s.location_id@.subrange(0, 0)));
        }
        let n = s.location_id.len();
        let mut i: usize = 0;
        while i < n
            invariant
                i <= n,
                n == s.location_id@.len(),
                tmp@ == varints_u64(s.location_id@.subrange(0, i as int)),
            decreases n - i,
        {
            put_varint(&mut tmp, s.location_id[i]);
            proof {
                assert(s.location_id@.subrange(0, i + 1).drop_last() =~= s.location_id@.subrange(
                    0,
                    i as int,
                ));
                assert(s.location_id@.subrange(0, i + 1).last() == s.location_id@[i as int]);
                assert(tmp@ =~= varints_u64(s.location_id@.subrange(0, i + 1)));
            }
            i += 1;
        }
        proof {
            assert(s.location_id@.subrange(0, n as int) =~= s.location_id@);
        }
        put_len_field(out, 1, tmp);
    }
    proof {
        assert(out@ =~= pre + enc_packed_u64(1, s.location_id@));
    }
    let ghost mid1 = out@;
    if s.value.len() > 0 {
        let mut tmp: Vec<u8> = Vec::new();
        proof {
            assert(s.value@.subrange(0, 0) =~= Seq::<i64>::empty());
            assert(tmp@ =~= varints_i64(s.value@.subrange(0, 0)));
        }
        let n = s.value.len();
        let mut i: usize = 0;
        while i < n
            invariant
                i <= n,
                n == s.value@.len(),
                tmp@ == varints_i64(s.value@.subrange(0, i as int)),
            decreases n - i,
        {
            put_varint(&mut tmp, i64_to_bits(s.value[i]));
            proof {
                assert(s.value@.subrange(0, i + 1).drop_last() =~= s.value@.subrange(0, i as int));
                assert(s.value@.subrange(0, i + 1).last() == s.value@[i as int]);
                assert(tmp@ =~= varints_i64(s.value@.subrange(0, i + 1)));
            }
            i += 1;
        }
        proof {
            assert(s.value@.subrange(0, n as int) =~= s.value@);
        }
        put_len_field(out, 2, tmp);
    }
    proof {
        assert(out@ =~= mid1 + enc_packed_i64(2, s.value@));
    }
    let ghost mid2 = out@;
    proof {
        assert(s.label@.subrange(0, 0) =~= Seq::<Label>::empty());
        assert(out@ =~= mid2 + enc_labels(s.label@.subrange(0, 0)));
    }
    let n = s.label.len();
    let mut i: usize = 0;
    while i < n
        invariant
            i <= n,
            n == s.label@.len(),
            out@ == mid2 + enc_labels(s.label@.subrange(0, i as int)),
        decreases n - i,
    {
        let mut tmp: Vec<u8> = Vec::new();
        encode_label(&s.label[i], &mut tmp);
        put_len_field(out, 3, tmp);
        proof {
            assert(s.label@.subrange(0, i + 1).drop_last() =~= s.label@.subrange(0, i as int));
            assert(s.label@.subrange(0, i + 1).last() == s.label@[i as int]);
            assert(out@ =~= mid2 + enc_labels(s.label@.subrange(0, i + 1)));
        }
        i += 1;
    }
    proof {
        assert(s.label@.subrange(0, n as int) =~= s.label@);
        assert(out@ =~= pre + enc_sample(*s));
    }
}

/// Writes the binary proto3 encoding of the profile message; the result
/// is exactly [`enc_profile`], so it is deterministic in the message.
#[verifier::rlimit(100)]
pub fn encode(p: &Profile) -> (r: Vec<u8>)
    ensures
        r@ == enc_profile(*p),
{
    let mut out: Vec<u8> = Vec::new();
    let ghost g0 = out@;
    proof {
        assert(p.sample_type@.subrange(0, 0) =~= Seq::<ValueType>::empty());
        assert(out@ =~= g0 + enc_sample_types(p.sample_type@.subrange(0, 0)));
    }
    let n = p.sample_type.len();
    let mut i: usize = 0;
    while i < n
        invariant
            i <= n,
            n == p.sample_type@.len(),
            out@ == g0 + enc_sample_types(p.sample_type@.subrange(0, i as int)),
        decreases n - i,
    {
        let mut tmp: Vec<u8> = Vec::new();
        encode_value_type(&p.sample_type[i], &mut tmp);
        put_len_field(&mut out, 1, tmp);
        proof {
            assert(p.sample_type@.subrange(0, i + 1).drop_last() =~= p.sample_type@.subrange(
                0,
                i as int,
            ));
            assert(p.sample_type@.subrange(0, i + 1).last() == p.sample_type@[i as int]);
            assert(out@ =~= g0 + enc_sample_types(p.sample_type@.subrange(0, i + 1)));
        }
        i += 1;
    }
    proof {
        assert(p.sample_type@.subrange(0, n as int) =~= p.sample_type@);
    }
    let ghost g1 = out@;
    proof {
        assert(p.sample@.subrange(0, 0) =~= Seq::<Sample>::empty());
        assert(out@ =~= g1 + enc_samples(p.sample@.subrange(0, 0)));
    }
    let n = p.sample.len();
    let mut i: usize = 0;
    while i < n
        invariant
            i <= n,
            n == p.sample@.len(),
            out@ == g1 + enc_samples(p.sample@.subrange(0, i as int)),
        decreases n - i,
    {
        let mut tmp: Vec<u8> = Vec::new();
        encode_sample(&p.sample[i], &mut tmp);
        put_len_field(&mut out, 2, tmp);
        proof {
            assert(p.sample@.subrange(0, i + 1).drop_last() =~= p.sample@.subrange(0, i as int));
            assert(p.sample@.subrange(0, i + 1).last() == p.sample@[i as int]);
            assert(out@ =~= g1 + enc_samples(p.sample@.subrange(0, i + 1)));
        }
        i += 1;
    }
    proof {
        assert(p.sample@.subrange(0, n as int) =~= p.sample@);
    }
    let ghost g2 = out@;
    proof {
        assert(p.mapping@.subrange(0, 0) =~= Seq::<Mapping>::empty());
        assert(out@ =~= g2 + enc_mappings(p.mapping@.subrange(0, 0)));
    }
    let n = p.mapping.len();
    let mut i: usize = 0;
    while i < n
        invariant
            i <= n,
            n == p.mapping@.len(),
            out@ == g2 + enc_mappings(p.mapping@.subrange(0, i as int)),
        decreases n - i,
    {
        let mut tmp: Vec<u8> = Vec::new();
        encode_mapping(&p.mapping[i], &mut tmp);
        put_len_field(&mut out, 3, tmp);
        proof {
            assert(p.mapping@.subrange(0, i + 1).drop_last() =~= p.mapping@.subrange(0, i as int));
            assert(p.mapping@.subrange(0, i + 1).last() == p.mapping@[i as int]);
            assert(out@ =~= g2 + enc_mappings(p.mapping@.subrange(0, i + 1)));
        }
        i += 1;
    }
    proof {
        assert(p.mapping@.subrange(0, n as int) =~= p.mapping@);
    }
    let ghost g3 = out@;
    proof {
        assert(p.location@.subrange(0, 0) =~= Seq::<Location>::empty());
        assert(out@ =~= g3 + enc_locations(p.location@.subrange(0, 0)));
    }
    let n = p.location.len();
    let mut i: usize = 0;
    while i < n
        invariant
            i <= n,
            n == p.location@.len(),
            out@ == g3 + enc_locations(p.location@.subrange(0, i as int)),
        decreases n - i,
    {
        let mut tmp: Vec<u8> = Vec::new();
        encode_location(&p.location[i], &mut tmp);
        put_len_field(&mut out, 4, tmp);
        proof {
            assert(p.location@.subrange(0, i + 1).drop_last() =~= p.location@.subrange(
                0,
                i as int,
            ));
            assert(p.location@.subrange(0, i + 1).last() == p.location@[i as int]);
            assert(out@ =~= g3 + enc_locations(p.location@.subrange(0, i + 1)));
        }
        i += 1;
    }
    proof {
        assert(p.location@.subrange(0, n as int) =~= p.location@);
    }
    let ghost g4 = out@;
    proof {
        assert(p.function@.subrange(0, 0) =~= Seq::<Function>::empty());
        assert(out@ =~= g4 + enc_functions(p.function@.subrange(0, 0)));
    }
    let n = p.function.len();
    let mut i: usize = 0;
    while i < n
        invariant
            i <= n,
            n == p.function@.len(),
            out@ == g4 + enc_functions(p.function@.subrange(0, i as int)),
        decreases n - i,
    {
        let mut tmp: Vec<u8> = Vec::new();
        encode_function(&p.function[i], &mut tmp);
        put_len_field(&mut out, 5, tmp);
        proof {
            assert(p.function@.subrange(0, i + 1).drop_last() =~= p.function@.subrange(
                0,
                i as int,
            ));
            assert(p.function@.subrange(0, i + 1).last() == p.function@[i as int]);
            assert(out@ =~= g4 + enc_functions(p.function@.subrange(0, i + 1)));
        }
        i += 1;
    }
    proof {
        assert(p.function@.subrange(0, n as int) =~= p.function@);
    }
    let ghost g5 = out@;
    proof {
        assert(p.string_table@.subrange(0, 0) =~= Seq::<String>::empty());
        assert(out@ =~= g5 + enc_strings(p.string_table@.subrange(0, 0)));
    }
    let n = p.string_table.len();
    let mut i: usize = 0;
    while i < n
        invariant
            i <= n,
            n == p.string_table@.len(),
            out@ == g5 + enc_strings(p.string_table@.subrange(0, i as int)),
        decreases n - i,
    {
        let bytes = p.string_table[i].as_str().as_bytes_vec();
        put_len_field(&mut out, 6, bytes);
        proof {
            assert(p.string_table@.subrange(0, i + 1).drop_last() =~= p.string_table@.subrange(
                0,
                i as int,
            ));
            assert(p.string_table@.subrange(0, i + 1).last() == p.string_table@[i as int]);
            assert(out@ =~= g5 + enc_strings(p.string_table@.subrange(0, i + 1)));
        }
        i += 1;
    }
    proof {
        assert(p.string_table@.subrange(0, n as int) =~= p.string_table@);
    }
    put_i64_field(&mut out, 9, p.time_nanos);
    put_i64_field(&mut out, 10, p.duration_nanos);
    let ghost g6 = out@;
    match &p.period_type {
        Some(v) => {
            let mut tmp: Vec<u8> = Vec::new();
            encode_value_type(v, &mut tmp);
            put_len_field(&mut out, 11, tmp);
        },
        None => {},
    }
    let ghost t11 = (match p.period_type {
        Some(v) => enc_len_field(11, enc_value_type(v)),
        None => Seq::<u8>::empty(),
    });
    proof {
        assert(out@ =~= g6 + t11);
    }
    put_i64_field(&mut out, 12, p.period);
    proof {
        assert(g0 + enc_sample_types(p.sample_type@) =~= enc_sample_types(p.sample_type@));
        lemma_assoc10(
            enc_sample_types(p.sample_type@),
            enc_samples(p.sample@),
            enc_mappings(p.mapping@),
            enc_locations(p.location@),
            enc_functions(p.function@),
            enc_strings(p.string_table@),
            enc_i64_field(9, p.time_nanos),
            enc_i64_field(10, p.duration_nanos),
            t11,
            enc_i64_field(12, p.period),
        );
        assert(out@ == enc_profile(*p));
    }
    out
}

proof fn lemma_assoc10(
    a1: Seq<u8>,
    a2: Seq<u8>,
    a3: Seq<u8>,
    a4: Seq<u8>,
    a5: Seq<u8>,
    a6: Seq<u8>,
    a7: Seq<u8>,
    a8: Seq<u8>,
    a9: Seq<u8>,
    a10: Seq<u8>,
)
    ensures
        ((((((((a1 + a2) + a3) + a4) + a5) + a6) + a7) + a8) + a9) + a10 == a1 + (a2 + (a3 + (a4
            + (a5 + (a6 + (a7 + (a8 + (a9 + a10)))))))),
{
    assert(((((((((a1 + a2) + a3) + a4) + a5) + a6) + a7) + a8) + a9) + a10 =~= a1 + (a2 + (a3 + (
    a4 + (a5 + (a6 + (a7 + (a8 + (a9 + a10)))))))));
}

} // verus!
