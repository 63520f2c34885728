//! The profile aggregation engine: a content-addressed, interning store
//! that folds structured samples into a normalized pprof graph.
//!
//! Every interned string, mapping, function and location is identified by
//! a dense index. String ids are used as-is (the empty string lives at
//! id 0); every other entity exposes its insertion index shifted by one,
//! since id 0 means "unset" in the pprof schema.
//!
//! Each deduplicated entity is keyed by a flat `Vec<u64>` record, so the
//! mathematical model of a profile is a collection of sequences of plain
//! values; `ProfileModel` gathers them.

use vstd::prelude::*;

use crate::api;
use crate::indexed::{
    sample_map_get_index, sample_map_get_index_of, sample_map_insert_full, sample_map_keys,
    sample_map_len, sample_map_new, sample_map_set_value, sample_map_vals, str_set_elems,
    str_set_get_index, str_set_get_index_of, str_set_insert_full, str_set_len, str_set_new,
    u64_set_elems, u64_set_get_index, u64_set_get_index_of, u64_set_insert_full, u64_set_len,
    u64_set_new,
};
use crate::clock::{
    duration_as_nanos, duration_nanos_of, instant_elapsed, instant_now,
    system_time_duration_since, system_time_now, unix_epoch,
};
use crate::pprof;

verus! {

/// A dense pprof identifier. For strings the index is the id itself;
/// for mappings, functions, locations and samples, 0 means "unset" and
/// the id of the entity inserted at index `i` is `i + 1`.
#[derive(Copy, Clone, Debug, PartialEq, Eq, Hash, Structural)]
pub struct PProfId(pub usize);

/// Capacity-exhaustion outcome: a dedup container would exceed the
/// maximum the profile accepts.
#[derive(Debug)]
pub struct FullError;

impl FullError {
    /// The fixed human-readable rendering of this error.
    pub fn message(&self) -> (r: String)
        ensures
            r@ == "Full"@,
    {
        "Full".to_owned()
    }
}

/// Since ids are index + 1, the maximum is one less than what a 32-bit
/// id could address.
pub const CONTAINER_MAX: usize = 4294967294;

/// A sample type or period type: a pair of string ids.
#[derive(Copy, Clone, Debug, PartialEq, Eq, Hash, Structural)]
pub struct ValueType {
    pub typ: PProfId,
    pub unit: PProfId,
}

/// The mathematical model of a profile: the contents of its containers,
/// in insertion order, as sequences of plain values.
pub struct ProfileModel {
    /// The string table; entry 0 is the empty string.
    pub strs: Seq<Seq<char>>,
    /// Mapping records `[memory_start, memory_limit, file_offset, filename id, build id]`.
    pub maps: Seq<Seq<u64>>,
    /// Location records `[mapping id, address, is_folded, line count, function id, line, ...]`.
    pub locs: Seq<Seq<u64>>,
    /// Function records `[name id, system name id, filename id, start line]`.
    pub funs: Seq<Seq<u64>>,
    /// Sample keys `[location count, location ids..., label count, labels...]`,
    /// each label flattened as `[key id, str id, num bits, num unit id]`.
    pub skeys: Seq<Seq<u64>>,
    /// The value list of each sample, positionally matching `skeys`.
    pub svals: Seq<Seq<i64>>,
    /// Sample types as pairs of string ids.
    pub stypes: Seq<(u64, u64)>,
    pub period: i64,
    pub ptype: Option<(u64, u64)>,
}

/// Pairwise distinctness, the invariant of every dedup container.
pub open spec fn distinct_seq<T>(s: Seq<T>) -> bool {
    forall|i: int, j: int| 0 <= i < j < s.len() ==> s[i] != s[j]
}

/// The elements of a dedup container after offering it `x`.
pub open spec fn ded_elems<T>(elems: Seq<T>, x: T) -> Seq<T> {
    if elems.contains(x) {
        elems
    } else {
        elems.push(x)
    }
}

/// The stable index a dedup container reports for `x`.
pub open spec fn ded_idx<T>(elems: Seq<T>, x: T) -> int {
    if elems.contains(x) {
        elems.index_of(x)
    } else {
        elems.len() as int
    }
}

/// Whether offering `x` to a dedup container stays within capacity:
/// always on a hit, and only below `CONTAINER_MAX` on a miss — only
/// growth past the limit is refused.
pub open spec fn ded_ok<T>(elems: Seq<T>, x: T) -> bool {
    elems.contains(x) || elems.len() < CONTAINER_MAX
}

/// Whether interning `s` stays within capacity.
pub open spec fn intern_ok(strs: Seq<Seq<char>>, s: Seq<char>) -> bool {
    ded_ok(strs, s)
}

/// Whether interning an optional string stays within capacity.
pub open spec fn intern_opt_ok(strs: Seq<Seq<char>>, o: Option<Seq<char>>) -> bool {
    match o {
        Some(s) => intern_ok(strs, s),
        None => true,
    }
}

/// The string table after interning `s`.
pub open spec fn intern_strs(strs: Seq<Seq<char>>, s: Seq<char>) -> Seq<Seq<char>> {
    ded_elems(strs, s)
}

/// The id interning `s` reports.
pub open spec fn intern_id(strs: Seq<Seq<char>>, s: Seq<char>) -> int {
    ded_idx(strs, s)
}

pub proof fn lemma_distinct_index<T>(s: Seq<T>, x: T, i: int)
    requires
        distinct_seq(s),
        0 <= i < s.len(),
        s[i] == x,
    ensures
        s.contains(x),
        ded_idx(s, x) == i,
{
    assert(s.contains(x)) by {
        assert(0 <= i < s.len() && s[i] == x);
    }
    let j = s.index_of(x);
    assert(0 <= j < s.len() && s[j] == x);
    if i != j {
        assert(s[i] != s[j]);
    }
}

pub proof fn lemma_distinct_push<T>(s: Seq<T>, x: T)
    requires
        distinct_seq(s),
        !s.contains(x),
    ensures
        distinct_seq(s.push(x)),
{
    assert forall|i: int, j: int| 0 <= i < j < s.push(x).len() implies s.push(x)[i] != s.push(
        x,
    )[j] by {
        if j == s.len() {
            assert(s.push(x)[i] == s[i]);
            if s[i] == x {
                assert(s.contains(x)) by {
                    assert(0 <= i < s.len() && s[i] == x);
                }
            }
        }
    }
}

/// The binary pprof payload of a serialized profile, together with the
/// wall-clock start and end of the observation window.
pub struct EncodedProfile {
    pub start: std::time::SystemTime,
    pub end: std::time::SystemTime,
    pub buffer: Vec<u8>,
}

/// The in-memory normalized pprof graph.
pub struct Profile {
    sample_types: Vec<ValueType>,
    samples: indexmap::IndexMap<Vec<u64>, Vec<i64>>,
    mappings: indexmap::IndexSet<Vec<u64>>,
    locations: indexmap::IndexSet<Vec<u64>>,
    functions: indexmap::IndexSet<Vec<u64>>,
    strings: indexmap::IndexSet<String>,
    started_at: std::time::Instant,
    start_time: std::time::SystemTime,
    period: i64,
    period_type: Option<ValueType>,
}

/// The id pairs of a list of sample types.
pub open spec fn vts_ids(v: Seq<ValueType>) -> Seq<(u64, u64)> {
    Seq::new(v.len(), |i: int| (v[i].typ.0 as u64, v[i].unit.0 as u64))
}

impl Profile {
    /// The contents of the profile's containers, as plain values.
    pub closed spec fn model(self) -> ProfileModel {
        ProfileModel {
            strs: str_set_elems(self.strings),
            maps: u64_set_elems(self.mappings),
            locs: u64_set_elems(self.locations),
            funs: u64_set_elems(self.functions),
            skeys: sample_map_keys(self.samples),
            svals: sample_map_vals(self.samples),
            stypes: vts_ids(self.sample_types@),
            period: self.period,
            ptype: match self.period_type {
                Some(vt) => Some((vt.typ.0 as u64, vt.unit.0 as u64)),
                None => None,
            },
        }
    }

    /// Every invariant the engine maintains; see [`wf_model`].
    pub open spec fn wf(self) -> bool {
        wf_model(self.model())
    }

    /// Creates a profile with "now" for the start time and the string
    /// table holding exactly the empty string.
    pub fn new() -> (p: Profile)
        ensures
            p.wf(),
            p.model().strs == seq![Seq::<char>::empty()],
            p.model().maps == Seq::<Seq<u64>>::empty(),
            p.model().locs == Seq::<Seq<u64>>::empty(),
            p.model().funs == Seq::<Seq<u64>>::empty(),
            p.model().skeys == Seq::<Seq<u64>>::empty(),
            p.model().svals == Seq::<Seq<i64>>::empty(),
            p.model().stypes == Seq::<(u64, u64)>::empty(),
            p.model().period == 0,
            p.model().ptype is None,
    {
        let mut strings = str_set_new();
        let (_, _) = str_set_insert_full(&mut strings, String::new());
        let p = Profile {
            sample_types: Vec::new(),
            samples: sample_map_new(),
            mappings: u64_set_new(),
            locations: u64_set_new(),
            functions: u64_set_new(),
            strings,
            started_at: instant_now(),
            start_time: system_time_now(),
            period: 0,
            period_type: None,
        };
        proof {
            assert(p.model().strs =~= seq![Seq::<char>::empty()]);
            assert(vts_ids(p.sample_types@) =~= Seq::<(u64, u64)>::empty());
        }
        p
    }

    /// Interns `s`, returning its stable id in the string table: the id
    /// of an equal string already present, else the next index. Nothing
    /// else in the profile changes. A new string is refused with
    /// `FullError`, changing nothing, when the table is at capacity.
    pub fn intern(&mut self, s: &str) -> (r: Result<PProfId, FullError>)
        requires
            old(self).wf(),
        ensures
            final(self).wf(),
            match r {
                Ok(id) => intern_ok(old(self).model().strs, s@) && final(self).model() == (
                ProfileModel { strs: intern_strs(old(self).model().strs, s@), ..old(self).model() })
                    && id.0 as int == intern_id(old(self).model().strs, s@)
                    && id.0 < final(self).model().strs.len(),
                Err(_) => !intern_ok(old(self).model().strs, s@)
                    && final(self).model() == old(self).model(),
            },
    {
        let ghost pre = self.model();
        let r = match str_set_get_index_of(&self.strings, s) {
            Some(i) => {
                proof {
                    lemma_distinct_index(pre.strs, s@, i as int);
                }
                PProfId(i)
            },
            None => {
                if str_set_len(&self.strings) >= CONTAINER_MAX {
                    return Err(FullError);
                }
                let (i, inserted) = str_set_insert_full(&mut self.strings, s.to_owned());
                assert(inserted);
                proof {
                    lemma_distinct_push(pre.strs, s@);
                }
                PProfId(i)
            },
        };
        proof {
            assert(final(self).model().maps == pre.maps);
            assert(final(self).wf()) by {
                lemma_wf_after_intern(*old(self), *self, s@);
            }
        }
        Ok(r)
    }

    pub fn builder<'a>() -> (b: ProfileBuilder<'a>)
        ensures
            b.types_view() == Seq::<(Seq<char>, Seq<char>)>::empty(),
            b.period_view() is None,
    {
        ProfileBuilder::new()
    }

    /// Interns where the caller has already shown there is room for a
    /// new string.
    fn intern_in(&mut self, s: &str) -> (id: PProfId)
        requires
            old(self).wf(),
            old(self).model().strs.len() < CONTAINER_MAX,
        ensures
            final(self).wf(),
            final(self).model() == (ProfileModel {
                strs: intern_strs(old(self).model().strs, s@),
                ..old(self).model()
            }),
            id.0 as int == intern_id(old(self).model().strs, s@),
            id.0 < final(self).model().strs.len(),
    {
        match self.intern(s) {
            Ok(id) => id,
            Err(_) => {
                proof {
                    assert(false);
                }
                PProfId(0)
            },
        }
    }

    /// Interns the mapping's strings and deduplicates its record,
    /// returning its 1-based id; the first intern or insert that would
    /// grow its container past the cap fails with `FullError`, keeping
    /// what came before it.
    fn add_mapping(&mut self, mapping: &api::Mapping) -> (r: Result<PProfId, FullError>)
        requires
            old(self).wf(),
        ensures
            final(self).wf(),
            ({
                let (pm, po) = add_mapping_spec(old(self).model(), mapping@);
                match r {
                    Ok(id) => po matches Some(i) && final(self).model() == pm && id.0 as int == i,
                    Err(_) => po is None && final(self).model() == pm,
                }
            }),
    {
        let ghost m0 = self.model();
        let filename = match self.intern(mapping.filename) {
            Ok(id) => id,
            Err(e) => {
                return Err(e);
            },
        };
        let build_id = match self.intern(mapping.build_id) {
            Ok(id) => id,
            Err(e) => {
                return Err(e);
            },
        };
        let mut key: Vec<u64> = Vec::new();
        key.push(mapping.memory_start);
        key.push(mapping.memory_limit);
        key.push(mapping.file_offset);
        key.push(filename.0 as u64);
        key.push(build_id.0 as u64);
        let ghost key_spec = seq![
            mapping@.memory_start,
            mapping@.memory_limit,
            mapping@.file_offset,
            intern_id(m0.strs, mapping@.filename) as u64,
            intern_id(intern_strs(m0.strs, mapping@.filename), mapping@.build_id) as u64,
        ];
        proof {
            assert(key@ =~= key_spec);
        }
        let ghost pre = self.model();
        let id = match u64_set_get_index_of(&self.mappings, &key) {
            Some(i) => {
                proof {
                    lemma_distinct_index(pre.maps, key_spec, i as int);
                }
                i + 1
            },
            None => {
                if u64_set_len(&self.mappings) >= CONTAINER_MAX {
                    return Err(FullError);
                }
                let (_, _) = u64_set_insert_full(&mut self.mappings, key);
                proof {
                    lemma_distinct_push(pre.maps, key_spec);
                }
                u64_set_len(&self.mappings)
            },
        };
        proof {
            let (pm, po) = add_mapping_spec(m0, mapping@);
            assert(final(self).model() == pm);
            assert(final(self).wf());
        }
        Ok(PProfId(id))
    }

    /// Interns the function's strings and deduplicates its record,
    /// returning its 1-based id; the first intern or insert that would
    /// grow its container past the cap fails with `FullError`, keeping
    /// what came before it. A negative start line clamps to zero.
    fn add_function(&mut self, function: &api::Function) -> (r: Result<PProfId, FullError>)
        requires
            old(self).wf(),
        ensures
            final(self).wf(),
            ({
                let (pm, po) = add_function_spec(old(self).model(), function@);
                match r {
                    Ok(id) => po matches Some(i) && final(self).model() == pm && id.0 as int == i,
                    Err(_) => po is None && final(self).model() == pm,
                }
            }),
    {
        let ghost m0 = self.model();
        let name = match self.intern(function.name) {
            Ok(id) => id,
            Err(e) => {
                return Err(e);
            },
        };
        let system_name = match self.intern(function.system_name) {
            Ok(id) => id,
            Err(e) => {
                return Err(e);
            },
        };
        let filename = match self.intern(function.filename) {
            Ok(id) => id,
            Err(e) => {
                return Err(e);
            },
        };
        let start_line: u64 = if function.start_line < 0 {
            0
        } else {
            function.start_line as u64
        };
        let mut key: Vec<u64> = Vec::new();
        key.push(name.0 as u64);
        key.push(system_name.0 as u64);
        key.push(filename.0 as u64);
        key.push(start_line);
        let ghost s1 = intern_strs(m0.strs, function@.name);
        let ghost s2 = intern_strs(s1, function@.system_name);
        let ghost key_spec = seq![
            intern_id(m0.strs, function@.name) as u64,
            intern_id(s1, function@.system_name) as u64,
            intern_id(s2, function@.filename) as u64,
            clamp_line(function@.start_line),
        ];
        proof {
            assert(key@ =~= key_spec);
        }
        let ghost pre = self.model();
        let id = match u64_set_get_index_of(&self.functions, &key) {
            Some(i) => {
                proof {
                    lemma_distinct_index(pre.funs, key_spec, i as int);
                }
                i + 1
            },
            None => {
                if u64_set_len(&self.functions) >= CONTAINER_MAX {
                    return Err(FullError);
                }
                let (_, _) = u64_set_insert_full(&mut self.functions, key);
                proof {
                    lemma_distinct_push(pre.funs, key_spec);
                }
                u64_set_len(&self.functions)
            },
        };
        proof {
            let (pm, po) = add_function_spec(m0, function@);
            assert(final(self).model() == pm);
            assert(final(self).wf());
        }
        Ok(PProfId(id))
    }

    /// Registers one location: its mapping, its lines' functions, then
    /// the location record, returning the location's 1-based id. Any
    /// step's `FullError` is passed on, keeping what was interned
    /// before the failing step, as is a location record that would
    /// grow the set past the cap.
    fn add_location(&mut self, location: &api::Location) -> (r: Result<PProfId, FullError>)
        requires
            old(self).wf(),
        ensures
            final(self).wf(),
            ({
                let (pm, po) = add_location_spec(old(self).model(), location@);
                match r {
                    Ok(id) => po matches Some(i) && final(self).model() == pm && id.0 as int == i,
                    Err(_) => po is None && final(self).model() == pm,
                }
            }),
    {
        let ghost lview = location@;
        let mapping_id = match self.add_mapping(&location.mapping) {
            Ok(id) => id,
            Err(e) => {
                return Err(e);
            },
        };
        let ghost mmap = self.model();
        let nline = location.lines.len();
        let mut pairs_flat: Vec<u64> = Vec::new();
        proof {
            assert(lview.lines.subrange(0, 0) =~= Seq::<api::LineIn>::empty());
        }
        let mut kli: usize = 0;
        while kli < nline
            invariant
                kli <= nline,
                nline == lview.lines.len(),
                lview == location@,
                ({
                    let (pm, po) = add_mapping_spec(old(self).model(), lview.mapping);
                    pm == mmap && po == Some(mapping_id.0 as int)
                }),
                self.wf(),
                ({
                    let (mm, po) = lines_spec(mmap, lview.lines.subrange(0, kli as int));
                    mm == self.model() && (po matches Some(prs) && flat_pairs(prs) == pairs_flat@
                        && prs.len() == kli)
                }),
                pairs_flat@.len() == 2 * kli,
            decreases nline - kli,
        {
            let line = location.lines[kli];
            let ghost mstep = self.model();
            let fid = match self.add_function(&line.function) {
                Ok(id) => id,
                Err(e) => {
                    proof {
                        lemma_prefix_step(lview.lines, kli as int);
                        assert(lview.lines[kli as int] == line@);
                        assert(lines_spec(mmap, lview.lines.subrange(0, kli + 1)) == (
                            self.model(),
                            Option::<Seq<(u64, u64)>>::None,
                        ));
                        lemma_lines_none_persists(mmap, lview.lines, kli as int + 1);
                        let (pm, po) = add_location_spec(old(self).model(), lview);
                        assert(pm == self.model() && po is None);
                    }
                    return Err(e);
                },
            };
            pairs_flat.push(fid.0 as u64);
            pairs_flat.push(i64_to_bits(line.line));
            proof {
                lemma_prefix_step(lview.lines, kli as int);
                assert(lview.lines[kli as int] == line@);
                let (mm, po) = lines_spec(mmap, lview.lines.subrange(0, kli as int));
                let (mm2, po2) = lines_spec(mmap, lview.lines.subrange(0, kli + 1));
                assert(po2->Some_0.drop_last() =~= po->Some_0);
                assert(flat_pairs(po2->Some_0) =~= pairs_flat@);
            }
            kli += 1;
        }
        proof {
            assert(lview.lines.subrange(0, nline as int) =~= lview.lines);
        }
        let addr: u64 = if location.address <= (usize::MAX as u64) {
            location.address
        } else {
            0
        };
        let mut key: Vec<u64> = Vec::new();
        key.push(mapping_id.0 as u64);
        key.push(addr);
        key.push(
            if location.is_folded {
                1
            } else {
                0
            },
        );
        key.push(nline as u64);
        key.append(&mut pairs_flat);
        let ghost prs_g = lines_spec(mmap, lview.lines).1->Some_0;
        let ghost key_spec = location_key(mapping_id.0 as int, lview, prs_g);
        proof {
            assert(key@ =~= key_spec);
        }
        let ghost pre = self.model();
        let lid = match u64_set_get_index_of(&self.locations, &key) {
            Some(i) => {
                proof {
                    lemma_distinct_index(pre.locs, key_spec, i as int);
                }
                i + 1
            },
            None => {
                if u64_set_len(&self.locations) >= CONTAINER_MAX {
                    return Err(FullError);
                }
                let (_, _) = u64_set_insert_full(&mut self.locations, key);
                proof {
                    lemma_distinct_push(pre.locs, key_spec);
                }
                u64_set_len(&self.locations)
            },
        };
        proof {
            assert(prs_g.len() == nline as int);
            assert(key_spec[3] == nline as u64);
            assert(key_spec.len() == 4 + 2 * nline);
            assert(wf_loc_rec(key_spec));
            assert forall|t: int| 0 <= t < self.model().locs.len() implies wf_loc_rec(
                #[trigger] self.model().locs[t],
            ) by {
                if t < pre.locs.len() {
                    assert(wf_loc_rec(pre.locs[t]));
                } else {
                    assert(self.model().locs[t] == key_spec);
                }
            }
            assert(self.wf());
        }
        Ok(PProfId(lid))
    }

    /// Adds a sample, folding it into the profile.
    ///
    /// A value count that does not match the sample types returns id 0
    /// and changes nothing. A step that would grow a dedup container
    /// past `CONTAINER_MAX` fails with `FullError`, keeping whatever
    /// was interned before the failing step; steps that only find
    /// existing entries never fail. Otherwise returns the sample's
    /// 1-based id; a sample with an already-known key has its values
    /// summed elementwise into the stored entry.
    pub fn add(&mut self, sample: api::Sample) -> (r: Result<PProfId, FullError>)
        requires
            old(self).wf(),
        ensures
            final(self).wf(),
            ({
                let (post, res) = add_spec(old(self).model(), sample@);
                match r {
                    Ok(id) => res matches Some(i) && id.0 as int == i && final(self).model()
                        == post,
                    Err(_) => res is None && final(self).model() == post,
                }
            }),
    {
        if sample.values.len() != self.sample_types.len() {
            return Ok(PProfId(0));
        }
        let ghost m0 = self.model();
        proof {
            assert(sample@.values == sample.values@);
            assert(sample@.values.len() == m0.stypes.len());
        }
        let nlab = sample.labels.len();
        let mut lflat: Vec<u64> = Vec::new();
        proof {
            assert(sample@.labels.subrange(0, 0) =~= Seq::<api::LabelIn>::empty());
        }
        let mut li: usize = 0;
        while li < nlab
            invariant
                li <= nlab,
                nlab == sample@.labels.len(),
                old(self).model() == m0,
                sample@.values == sample.values@,
                sample@.values.len() == m0.stypes.len(),
                self.wf(),
                ({
                    let (sp, fo) = labels_spec(m0.strs, sample@.labels.subrange(0, li as int));
                    self.model() == (ProfileModel { strs: sp, ..m0 }) && fo == Some(lflat@)
                }),
                lflat@.len() == 4 * li,
            decreases nlab - li,
        {
            let ghost prefix = sample@.labels.subrange(0, li as int);
            let ghost mhere = self.model();
            let label = sample.labels[li];
            let key = match self.intern(label.key) {
                Ok(id) => id,
                Err(e) => {
                    proof {
                        lemma_prefix_step(sample@.labels, li as int);
                        assert(labels_spec(m0.strs, sample@.labels.subrange(0, li + 1)) == (
                            self.model().strs,
                            Option::<Seq<u64>>::None,
                        ));
                        lemma_labels_none_persists(m0.strs, sample@.labels, li as int + 1);
                        let (post, res) = add_spec(m0, sample@);
                        assert(post == self.model() && res is None);
                    }
                    return Err(e);
                },
            };
            let str_id = match label.str {
                Some(s) => match self.intern(s) {
                    Ok(id) => id,
                    Err(e) => {
                        proof {
                            lemma_prefix_step(sample@.labels, li as int);
                            assert(labels_spec(m0.strs, sample@.labels.subrange(0, li + 1)) == (
                                self.model().strs,
                                Option::<Seq<u64>>::None,
                            ));
                            lemma_labels_none_persists(m0.strs, sample@.labels, li as int + 1);
                            let (post, res) = add_spec(m0, sample@);
                            assert(post == self.model() && res is None);
                        }
                        return Err(e);
                    },
                },
                None => PProfId(0),
            };
            let num_unit = match label.num_unit {
                Some(s) => match self.intern(s) {
                    Ok(id) => id,
                    Err(e) => {
                        proof {
                            lemma_prefix_step(sample@.labels, li as int);
                            assert(labels_spec(m0.strs, sample@.labels.subrange(0, li + 1)) == (
                                self.model().strs,
                                Option::<Seq<u64>>::None,
                            ));
                            lemma_labels_none_persists(m0.strs, sample@.labels, li as int + 1);
                            let (post, res) = add_spec(m0, sample@);
                            assert(post == self.model() && res is None);
                        }
                        return Err(e);
                    },
                },
                None => PProfId(0),
            };
            lflat.push(key.0 as u64);
            lflat.push(str_id.0 as u64);
            lflat.push(i64_to_bits(label.num));
            lflat.push(num_unit.0 as u64);
            proof {
                lemma_prefix_step(sample@.labels, li as int);
                assert(sample@.labels[li as int] == label@);
                assert(self.model().strs == label_strs(mhere.strs, label@));
                assert(lflat@ =~= labels_spec(m0.strs, sample@.labels.subrange(0, li + 1)).1
                    ->Some_0);
            }
            li += 1;
        }
        proof {
            assert(sample@.labels.subrange(0, nlab as int) =~= sample@.labels);
        }
        let ghost m1 = self.model();
        let ghost lfg = lflat@;
        let nloc = sample.locations.len();
        let mut loc_ids: Vec<u64> = Vec::new();
        proof {
            assert(sample@.locations.subrange(0, 0) =~= Seq::<api::LocationIn>::empty());
        }
        let mut pi: usize = 0;
        while pi < nloc
            invariant
                pi <= nloc,
                nloc == sample@.locations.len(),
                nlab == sample@.labels.len(),
                old(self).model() == m0,
                sample@.values == sample.values@,
                sample@.values.len() == m0.stypes.len(),
                m1 == (ProfileModel { strs: labels_spec(m0.strs, sample@.labels).0, ..m0 }),
                labels_spec(m0.strs, sample@.labels).1 == Some(lfg),
                lflat@ == lfg,
                lflat@.len() == 4 * nlab,
                self.wf(),
                ({
                    let (mm, ids) = locs_spec(m1, sample@.locations.subrange(0, pi as int));
                    mm == self.model() && ids == Some(loc_ids@)
                }),
                loc_ids@.len() == pi,
            decreases nloc - pi,
        {
            let loc = &sample.locations[pi];
            let ghost mstart = self.model();
            proof {
                assert(loc@ == sample@.locations[pi as int]);
            }
            let lid = match self.add_location(loc) {
                Ok(id) => id,
                Err(e) => {
                    proof {
                        lemma_prefix_step(sample@.locations, pi as int);
                        assert(locs_spec(m1, sample@.locations.subrange(0, pi + 1)) == (
                            self.model(),
                            Option::<Seq<u64>>::None,
                        ));
                        lemma_locs_none_persists(m1, sample@.locations, pi as int + 1);
                        let (post, res) = add_spec(m0, sample@);
                        assert(post == self.model() && res is None);
                    }
                    return Err(e);
                },
            };
            loc_ids.push(lid.0 as u64);
            proof {
                lemma_prefix_step(sample@.locations, pi as int);
                let (mm, ids) = locs_spec(m1, sample@.locations.subrange(0, pi + 1));
                assert(mm == self.model() && ids == Some(loc_ids@));
            }
            pi += 1;
        }
        proof {
            assert(sample@.locations.subrange(0, nloc as int) =~= sample@.locations);
        }
        let ghost lids = loc_ids@;
        let mut skey: Vec<u64> = Vec::new();
        skey.push(nloc as u64);
        skey.append(&mut loc_ids);
        skey.push(nlab as u64);
        skey.append(&mut lflat);
        let ghost keyg = sample_key_spec(lids, nlab as int, lfg);
        proof {
            assert(skey@ =~= keyg);
        }
        let ghost m2 = self.model();
        proof {
            lemma_locs_spec_frame(m1, sample@.locations);
            assert(m2.stypes == m0.stypes);
            assert(m2.skeys == m0.skeys);
            assert(m2.svals == m0.svals);
        }
        let id = match sample_map_get_index_of(&self.samples, &skey) {
            Some(i) => {
                proof {
                    lemma_distinct_index(m2.skeys, keyg, i as int);
                }
                let n = sample_map_len(&self.samples);
                let mut vals: Vec<i64> = match sample_map_get_index(&self.samples, i) {
                    Some(e) => copy_i64_vec(e.1),
                    None => Vec::new(),
                };
                let len = vals.len();
                proof {
                    assert(vals@ == m2.svals[i as int]);
                    assert(vals@.len() == m2.stypes.len());
                    assert(sample@.values.len() == m2.stypes.len());
                }
                let mut j: usize = 0;
                while j < len
                    invariant
                        j <= len,
                        len == vals@.len(),
                        vals@.len() == m2.svals[i as int].len(),
                        i < m2.skeys.len(),
                        sample@.values.len() == vals@.len(),
                        sample@.values == sample.values@,
                        forall|k: int| 0 <= k < j ==> vals@[k]
                            == vstd::wrapping::i64_specs::wrapping_add(
                            m2.svals[i as int][k],
                            sample@.values[k],
                        ),
                        forall|k: int| j <= k < len ==> vals@[k] == m2.svals[i as int][k],
                    decreases len - j,
                {
                    let a = vals[j];
                    let b = sample.values[j];
                    vals.set(j, a.wrapping_add(b));
                    j += 1;
                }
                proof {
                    assert(vals@ =~= sum_vals(m2.svals[i as int], sample@.values));
                }
                sample_map_set_value(&mut self.samples, i, vals);
                proof {
                    assert forall|t: int| 0 <= t < self.model().svals.len() implies (
                    #[trigger] self.model().svals[t]).len() == self.model().stypes.len() by {
                        if t != i {
                            assert(self.model().svals[t] == m2.svals[t]);
                        }
                    }
                    assert(self.wf());
                }
                PProfId(i + 1)
            },
            None => {
                if sample_map_len(&self.samples) >= CONTAINER_MAX {
                    proof {
                        let (post, res) = add_spec(m0, sample@);
                        assert(post == self.model() && res is None);
                    }
                    return Err(FullError);
                }
                let values = copy_i64_vec(&sample.values);
                let (_, _) = sample_map_insert_full(&mut self.samples, skey, values);
                let n2 = sample_map_len(&self.samples);
                proof {
                    lemma_distinct_push(m2.skeys, keyg);
                    assert(wf_sample_key(keyg)) by {
                        assert(keyg[0] == nloc as u64);
                        assert(keyg[(nloc as int) + 1] == nlab as u64);
                        assert(keyg.len() == 2 + nloc + 4 * nlab);
                    }
                    assert forall|t: int| 0 <= t < self.model().skeys.len() implies wf_sample_key(
                        #[trigger] self.model().skeys[t],
                    ) by {
                        if t < m2.skeys.len() {
                            assert(wf_sample_key(m2.skeys[t]));
                        } else {
                            assert(self.model().skeys[t] == keyg);
                        }
                    }
                    assert forall|t: int| 0 <= t < self.model().svals.len() implies (
                    #[trigger] self.model().svals[t]).len() == self.model().stypes.len() by {
                        if t < m2.svals.len() {
                            assert(self.model().svals[t] == m2.svals[t]);
                        } else {
                            assert(self.model().svals[t] == sample@.values);
                        }
                    }
                    assert(self.wf());
                }
                PProfId(n2)
            },
        };
        proof {
            let (post, res) = add_spec(m0, sample@);
            assert(final(self).model() == post && res == Some(id.0 as int));
        }
        Ok(id)
    }

    /// Resets all data except the sample types and period, whose strings
    /// are re-interned into a fresh string table; returns the previous
    /// profile by value.
    pub fn reset(&mut self) -> (r: Option<Profile>)
        requires
            old(self).wf(),
        ensures
            final(self).wf(),
            r matches Some(prev) && prev == *old(self),
            final(self).model() == reset_spec(old(self).model()),
    {
        let ghost m0 = self.model();
        let n = self.sample_types.len();
        let mut types: Vec<api::ValueType> = Vec::new();
        let mut i: usize = 0;
        while i < n
            invariant
                i <= n,
                n == self.sample_types@.len(),
                self == old(self),
                old(self).wf(),
                m0 == self.model(),
                types@.len() == i,
                vt_views(types@) == resolve_types(m0).subrange(0, i as int),
            decreases n - i,
        {
            let vt = self.sample_types[i];
            proof {
                assert(m0.stypes[i as int] == (vt.typ.0 as u64, vt.unit.0 as u64));
                assert(m0.stypes[i as int].0 < m0.strs.len());
            }
            let t = match self.get_string(vt.typ) {
                Some(s) => s.as_str(),
                None => {
                    proof {
                        assert(false);
                    }
                    return None;
                },
            };
            let u = match self.get_string(vt.unit) {
                Some(s) => s.as_str(),
                None => {
                    proof {
                        assert(false);
                    }
                    return None;
                },
            };
            types.push(api::ValueType { typ: t, unit: u });
            proof {
                assert(vt_views(types@) =~= resolve_types(m0).subrange(0, i + 1));
            }
            i += 1;
        }
        proof {
            assert(vt_views(types@) =~= resolve_types(m0));
        }
        let period = match &self.period_type {
            Some(pt) => {
                proof {
                    assert(m0.ptype == Some((pt.typ.0 as u64, pt.unit.0 as u64)));
                }
                let t = match self.get_string(pt.typ) {
                    Some(s) => s.as_str(),
                    None => {
                        proof {
                            assert(false);
                        }
                        return None;
                    },
                };
                let u = match self.get_string(pt.unit) {
                    Some(s) => s.as_str(),
                    None => {
                        proof {
                            assert(false);
                        }
                        return None;
                    },
                };
                Some(api::Period { typ: api::ValueType { typ: t, unit: u }, value: self.period })
            },
            None => None,
        };
        proof {
            assert(period_views(period) == resolve_period(m0));
        }
        let mut fresh = ProfileBuilder::new().sample_types(types).period(period).build();
        core::mem::swap(self, &mut fresh);
        Some(fresh)
    }

    fn pprof_sample_types(&self) -> (r: Vec<pprof::ValueType>)
        requires
            self.wf(),
        ensures
            r@.len() == self.model().stypes.len(),
            forall|i: int| 0 <= i < r@.len() ==> (#[trigger] r@[i]).typ == id_i64(
                self.model().stypes[i].0,
            ) && r@[i].unit == id_i64(self.model().stypes[i].1),
    {
        let n = self.sample_types.len();
        let mut r: Vec<pprof::ValueType> = Vec::new();
        let mut i: usize = 0;
        while i < n
            invariant
                i <= n,
                n == self.sample_types@.len(),
                self.wf(),
                r@.len() == i,
                forall|j: int| 0 <= j < i ==> (#[trigger] r@[j]).typ == id_i64(
                    self.model().stypes[j].0,
                ) && r@[j].unit == id_i64(self.model().stypes[j].1),
            decreases n - i,
        {
            let vt = self.sample_types[i];
            proof {
                assert(self.model().stypes[i as int] == (vt.typ.0 as u64, vt.unit.0 as u64));
            }
            r.push(
                pprof::ValueType {
                    typ: id_to_i64(vt.typ.0 as u64),
                    unit: id_to_i64(vt.unit.0 as u64),
                },
            );
            i += 1;
        }
        r
    }

    fn pprof_mappings(&self) -> (r: Vec<pprof::Mapping>)
        requires
            self.wf(),
        ensures
            r@.len() == self.model().maps.len(),
            forall|i: int| 0 <= i < r@.len() ==> mapping_matches(
                #[trigger] r@[i],
                i,
                self.model().maps[i],
            ),
    {
        let n = u64_set_len(&self.mappings);
        let mut r: Vec<pprof::Mapping> = Vec::new();
        let mut i: usize = 0;
        while i < n
            invariant
                i <= n,
                n == self.model().maps.len(),
                self.wf(),
                r@.len() == i,
                forall|j: int| 0 <= j < i ==> mapping_matches(
                    #[trigger] r@[j],
                    j,
                    self.model().maps[j],
                ),
            decreases n - i,
        {
            match u64_set_get_index(&self.mappings, i) {
                Some(e) => {
                    r.push(
                        pprof::Mapping {
                            id: (i + 1) as u64,
                            memory_start: e[0],
                            memory_limit: e[1],
                            file_offset: e[2],
                            filename: id_to_i64(e[3]),
                            build_id: id_to_i64(e[4]),
                        },
                    );
                },
                None => {
                    proof {
                        assert(false);
                    }
                },
            }
            i += 1;
        }
        r
    }

    fn pprof_locations(&self) -> (r: Vec<pprof::Location>)
        requires
            self.wf(),
        ensures
            r@.len() == self.model().locs.len(),
            forall|i: int| 0 <= i < r@.len() ==> location_matches(
                #[trigger] r@[i],
                i,
                self.model().locs[i],
            ),
    {
        let n = u64_set_len(&self.locations);
        let mut r: Vec<pprof::Location> = Vec::new();
        let mut i: usize = 0;
        while i < n
            invariant
                i <= n,
                n == self.model().locs.len(),
                self.wf(),
                r@.len() == i,
                forall|j: int| 0 <= j < i ==> location_matches(
                    #[trigger] r@[j],
                    j,
                    self.model().locs[j],
                ),
            decreases n - i,
        {
            match u64_set_get_index(&self.locations, i) {
                Some(e) => {
                    let ghost rec = self.model().locs[i as int];
                    proof {
                        assert(wf_loc_rec(rec));
                    }
                    let elen = e.len();
                    let nl = (elen - 4) / 2;
                    proof {
                        assert(elen == 4 + 2 * (rec[3] as int));
                        assert(nl == rec[3]);
                    }
                    let mut lines: Vec<pprof::Line> = Vec::new();
                    let mut k: usize = 0;
                    while k < nl
                        invariant
                            k <= nl,
                            e@ == rec,
                            wf_loc_rec(rec),
                            nl == rec[3],
                            e@.len() == 4 + 2 * nl,
                            4 + 2 * nl <= usize::MAX,
                            lines@.len() == k,
                            forall|t: int| 0 <= t < k ==> (#[trigger] lines@[t]).function_id
                                == rec[4 + 2 * t] && lines@[t].line == bits_i64(rec[5 + 2 * t]),
                        decreases nl - k,
                    {
                        lines.push(
                            pprof::Line {
                                function_id: e[4 + 2 * k],
                                line: bits_to_i64(e[5 + 2 * k]),
                            },
                        );
                        k += 1;
                    }
                    r.push(
                        pprof::Location {
                            id: (i + 1) as u64,
                            mapping_id: e[0],
                            address: e[1],
                            line: lines,
                            is_folded: e[2] != 0,
                        },
                    );
                },
                None => {
                    proof {
                        assert(false);
                    }
                },
            }
            i += 1;
        }
        r
    }

    fn pprof_functions(&self) -> (r: Vec<pprof::Function>)
        requires
            self.wf(),
        ensures
            r@.len() == self.model().funs.len(),
            forall|i: int| 0 <= i < r@.len() ==> function_matches(
                #[trigger] r@[i],
                i,
                self.model().funs[i],
            ),
    {
        let n = u64_set_len(&self.functions);
        let mut r: Vec<pprof::Function> = Vec::new();
        let mut i: usize = 0;
        while i < n
            invariant
                i <= n,
                n == self.model().funs.len(),
                self.wf(),
                r@.len() == i,
                forall|j: int| 0 <= j < i ==> function_matches(
                    #[trigger] r@[j],
                    j,
                    self.model().funs[j],
                ),
            decreases n - i,
        {
            match u64_set_get_index(&self.functions, i) {
                Some(e) => {
                    r.push(
                        pprof::Function {
                            id: (i + 1) as u64,
                            name: id_to_i64(e[0]),
                            system_name: id_to_i64(e[1]),
                            filename: id_to_i64(e[2]),
                            start_line: id_to_i64(e[3]),
                        },
                    );
                },
                None => {
                    proof {
                        assert(false);
                    }
                },
            }
            i += 1;
        }
        r
    }

    fn pprof_strings(&self) -> (r: Vec<String>)
        requires
            self.wf(),
        ensures
            r@.len() == self.model().strs.len(),
            forall|i: int| 0 <= i < r@.len() ==> (#[trigger] r@[i])@ == self.model().strs[i],
    {
        let n = str_set_len(&self.strings);
        let mut r: Vec<String> = Vec::new();
        let mut i: usize = 0;
        while i < n
            invariant
                i <= n,
                n == self.model().strs.len(),
                self.wf(),
                r@.len() == i,
                forall|j: int| 0 <= j < i ==> (#[trigger] r@[j])@ == self.model().strs[j],
            decreases n - i,
        {
            match str_set_get_index(&self.strings, i) {
                Some(s) => {
                    r.push(s.clone());
                },
                None => {
                    proof {
                        assert(false);
                    }
                },
            }
            i += 1;
        }
        r
    }

    fn pprof_samples(&self) -> (r: Vec<pprof::Sample>)
        requires
            self.wf(),
        ensures
            r@.len() == self.model().skeys.len(),
            forall|i: int| 0 <= i < r@.len() ==> sample_matches(
                #[trigger] r@[i],
                self.model().skeys[i],
                self.model().svals[i],
            ),
    {
        let n = sample_map_len(&self.samples);
        let mut r: Vec<pprof::Sample> = Vec::new();
        let mut i: usize = 0;
        while i < n
            invariant
                i <= n,
                n == self.model().skeys.len(),
                self.wf(),
                r@.len() == i,
                forall|j: int| 0 <= j < i ==> sample_matches(
                    #[trigger] r@[j],
                    self.model().skeys[j],
                    self.model().svals[j],
                ),
            decreases n - i,
        {
            match sample_map_get_index(&self.samples, i) {
                Some(e) => {
                    let key = e.0;
                    let ghost krec = self.model().skeys[i as int];
                    proof {
                        assert(wf_sample_key(krec));
                    }
                    let klen = key.len();
                    let nl64 = key[0];
                    proof {
                        assert(nl64 as int + 2 <= krec.len());
                        assert(krec.len() == key@.len());
                        assert(nl64 <= usize::MAX as u64);
                    }
                    let nl = nl64 as usize;
                    let mut loc_ids: Vec<u64> = Vec::new();
                    let mut k: usize = 0;
                    while k < nl
                        invariant
                            k <= nl,
                            key@ == krec,
                            wf_sample_key(krec),
                            nl == krec[0],
                            nl as int + 2 <= key@.len(),
                            key@.len() <= usize::MAX,
                            loc_ids@.len() == k,
                            forall|t: int| 0 <= t < k ==> (#[trigger] loc_ids@[t]) == krec[1 + t],
                        decreases nl - k,
                    {
                        loc_ids.push(key[1 + k]);
                        k += 1;
                    }
                    let nb64 = key[nl + 1];
                    let ghost nb_g = krec[nl as int + 1] as int;
                    proof {
                        assert(krec.len() == (krec[0] as int) + 2 + 4 * nb_g);
                        assert(nb64 as int == nb_g);
                        assert(4 * nb_g <= klen as int);
                        assert(nb64 <= usize::MAX as u64);
                    }
                    let nb = nb64 as usize;
                    let mut labels: Vec<pprof::Label> = Vec::new();
                    let mut k2: usize = 0;
                    while k2 < nb
                        invariant
                            k2 <= nb,
                            key@ == krec,
                            wf_sample_key(krec),
                            nl == krec[0],
                            nb as int == krec[nl as int + 1],
                            key@.len() == (nl as int) + 2 + 4 * (nb as int),
                            key@.len() <= usize::MAX,
                            labels@.len() == k2,
                            forall|t: int| 0 <= t < k2 ==> {
                                let pl = #[trigger] labels@[t];
                                &&& pl.key == id_i64(krec[nl + 2 + 4 * t])
                                &&& pl.str == id_i64(krec[nl + 3 + 4 * t])
                                &&& pl.num == bits_i64(krec[nl + 4 + 4 * t])
                                &&& pl.num_unit == id_i64(krec[nl + 5 + 4 * t])
                            },
                        decreases nb - k2,
                    {
                        labels.push(
                            pprof::Label {
                                key: id_to_i64(key[nl + 2 + 4 * k2]),
                                str: id_to_i64(key[nl + 3 + 4 * k2]),
                                num: bits_to_i64(key[nl + 4 + 4 * k2]),
                                num_unit: id_to_i64(key[nl + 5 + 4 * k2]),
                            },
                        );
                        k2 += 1;
                    }
                    let value = copy_i64_vec(e.1);
                    r.push(pprof::Sample { location_id: loc_ids, value, label: labels });
                },
                None => {
                    proof {
                        assert(false);
                    }
                },
            }
            i += 1;
        }
        r
    }

    /// Projects the model into the pprof message: entity arrays in
    /// insertion order with contiguous 1-based ids, the string table
    /// as-is, and the given wall-clock and duration nanoseconds.
    pub fn pprof(&self, time_nanos: i64, duration_nanos: i64) -> (p: pprof::Profile)
        requires
            self.wf(),
        ensures
            pprof_matches(p, self.model(), time_nanos, duration_nanos),
    {
        let period_type = match &self.period_type {
            Some(vt) => Some(
                pprof::ValueType {
                    typ: id_to_i64(vt.typ.0 as u64),
                    unit: id_to_i64(vt.unit.0 as u64),
                },
            ),
            None => None,
        };
        pprof::Profile {
            sample_type: self.pprof_sample_types(),
            sample: self.pprof_samples(),
            mapping: self.pprof_mappings(),
            location: self.pprof_locations(),
            function: self.pprof_functions(),
            string_table: self.pprof_strings(),
            time_nanos,
            duration_nanos,
            period_type,
            period: self.period,
        }
    }

    /// The wall-clock time the profile started at.
    pub closed spec fn spec_start_time(self) -> std::time::SystemTime {
        self.start_time
    }

    /// Serializes the aggregated profile: the buffer is the deterministic
    /// proto3 encoding of a pprof message matching the model, `start` is
    /// the profile's start time and `end` is the present wall-clock time.
    /// The encoded duration is [`saturated_duration_nanos`] of the
    /// monotonic span since the profile was created (saturating); the
    /// encoded epoch offset is [`epoch_time_nanos`] of the span from
    /// the epoch to the start time (zero on underflow or overflow).
    pub fn serialize(&self) -> (r: EncodedProfile)
        requires
            self.wf(),
        ensures
            r.start == self.spec_start_time(),
            exists|
                p: pprof::Profile,
                elapsed: std::time::Duration,
                span: Option<std::time::Duration>,
            |
                r.buffer@ == pprof::enc_profile(p) && pprof_matches(
                    p,
                    self.model(),
                    epoch_time_nanos(span),
                    saturated_duration_nanos(elapsed),
                ),
    {
        let end = system_time_now();
        let elapsed = instant_elapsed(&self.started_at);
        let elapsed_nanos = duration_as_nanos(&elapsed);
        let duration_nanos: i64 = if elapsed_nanos > (i64::MAX as u128) {
            i64::MAX
        } else {
            elapsed_nanos as i64
        };
        let ghost mut span: Option<std::time::Duration> = None;
        let time_nanos: i64 = match system_time_duration_since(&self.start_time, unix_epoch()) {
            Ok(d) => {
                proof {
                    span = Some(d);
                }
                let n = duration_as_nanos(&d);
                if n > (i64::MAX as u128) {
                    0
                } else {
                    n as i64
                }
            },
            Err(_) => 0,
        };
        proof {
            assert(duration_nanos == saturated_duration_nanos(elapsed));
            assert(time_nanos == epoch_time_nanos(span));
        }
        let msg = self.pprof(time_nanos, duration_nanos);
        let buffer = pprof::encode(&msg);
        proof {
            assert(buffer@ == pprof::enc_profile(msg) && pprof_matches(
                msg,
                self.model(),
                epoch_time_nanos(span),
                saturated_duration_nanos(elapsed),
            ));
        }
        EncodedProfile { start: self.start_time, end, buffer }
    }

    /// How many mappings are stored.
    pub fn mappings_count(&self) -> (r: usize)
        ensures
            r == self.model().maps.len(),
    {
        u64_set_len(&self.mappings)
    }

    /// How many locations are stored.
    pub fn locations_count(&self) -> (r: usize)
        ensures
            r == self.model().locs.len(),
    {
        u64_set_len(&self.locations)
    }

    /// How many functions are stored.
    pub fn functions_count(&self) -> (r: usize)
        ensures
            r == self.model().funs.len(),
    {
        u64_set_len(&self.functions)
    }

    /// How many distinct samples are stored.
    pub fn samples_count(&self) -> (r: usize)
        ensures
            r == self.model().skeys.len(),
    {
        sample_map_len(&self.samples)
    }

    /// How many strings are interned.
    pub fn strings_count(&self) -> (r: usize)
        ensures
            r == self.model().strs.len(),
    {
        str_set_len(&self.strings)
    }

    /// The profile's period value.
    pub fn period(&self) -> (r: i64)
        ensures
            r == self.model().period,
    {
        self.period
    }

    /// The profile's period type, as string ids.
    pub fn period_type(&self) -> (r: Option<ValueType>)
        ensures
            match r {
                Some(vt) => self.model().ptype == Some((vt.typ.0 as u64, vt.unit.0 as u64)),
                None => self.model().ptype is None,
            },
    {
        self.period_type
    }

    /// The profile's sample types, as string ids.
    pub fn sample_types(&self) -> (r: &Vec<ValueType>)
        ensures
            vts_ids(r@) == self.model().stypes,
    {
        &self.sample_types
    }

    /// The string stored at `id`, if `id` is in range.
    pub fn get_string(&self, id: PProfId) -> (r: Option<&String>)
        ensures
            match r {
                Some(s) => id.0 < self.model().strs.len() && s@ == self.model().strs[id.0 as int],
                None => id.0 >= self.model().strs.len(),
            },
    {
        str_set_get_index(&self.strings, id.0)
    }
}

/// Every invariant the engine maintains: the empty string at id 0,
/// distinctness of each container, the shape of each flat record,
/// in-range string ids for the schema, one value per sample type in
/// every stored sample, and no dedup container past `CONTAINER_MAX`
/// (with enough id headroom for the sample-type list to be re-interned
/// into a fresh table).
pub open spec fn wf_model(m: ProfileModel) -> bool {
    &&& m.strs.len() >= 1
    &&& m.strs[0] == Seq::<char>::empty()
    &&& distinct_seq(m.strs)
    &&& distinct_seq(m.maps)
    &&& distinct_seq(m.locs)
    &&& distinct_seq(m.funs)
    &&& distinct_seq(m.skeys)
    &&& m.svals.len() == m.skeys.len()
    &&& forall|i: int| 0 <= i < m.svals.len() ==> (#[trigger] m.svals[i]).len() == m.stypes.len()
    &&& forall|i: int| 0 <= i < m.maps.len() ==> (#[trigger] m.maps[i]).len() == 5
    &&& forall|i: int| 0 <= i < m.funs.len() ==> (#[trigger] m.funs[i]).len() == 4
    &&& forall|i: int| 0 <= i < m.locs.len() ==> wf_loc_rec(#[trigger] m.locs[i])
    &&& forall|i: int| 0 <= i < m.skeys.len() ==> wf_sample_key(#[trigger] m.skeys[i])
    &&& forall|i: int| 0 <= i < m.stypes.len() ==> (#[trigger] m.stypes[i]).0 < m.strs.len()
        && m.stypes[i].1 < m.strs.len()
    &&& m.ptype matches Some(p) ==> p.0 < m.strs.len() && p.1 < m.strs.len()
    &&& m.ptype is None ==> m.period == 0
    &&& m.strs.len() <= CONTAINER_MAX
    &&& m.maps.len() <= CONTAINER_MAX
    &&& m.locs.len() <= CONTAINER_MAX
    &&& m.funs.len() <= CONTAINER_MAX
    &&& m.skeys.len() <= CONTAINER_MAX
    &&& 3 + 2 * m.stypes.len() <= CONTAINER_MAX
}

/// The shape of a location record: its length matches its line count.
pub open spec fn wf_loc_rec(r: Seq<u64>) -> bool {
    &&& r.len() >= 4
    &&& r.len() == 4 + 2 * (r[3] as int)
}

/// The shape of a sample key: its length matches its location and label
/// counts.
pub open spec fn wf_sample_key(k: Seq<u64>) -> bool {
    &&& k.len() >= 2
    &&& (k[0] as int) + 2 <= k.len()
    &&& k.len() == (k[0] as int) + 2 + 4 * (k[(k[0] as int) + 1] as int)
}

/// The two's-complement bit pattern of an `i64`, as a `u64`.
pub open spec fn i64_bits(x: i64) -> u64 {
    if x >= 0 {
        x as u64
    } else {
        (x + 0x1_0000_0000_0000_0000) as u64
    }
}

/// The `i64` whose two's-complement bit pattern is `b`.
pub open spec fn bits_i64(b: u64) -> i64 {
    if b < 0x8000_0000_0000_0000 {
        b as i64
    } else {
        (b - 0x1_0000_0000_0000_0000) as i64
    }
}

pub(crate) fn i64_to_bits(x: i64) -> (r: u64)
    ensures
        r == i64_bits(x),
{
    if x >= 0 {
        x as u64
    } else {
        ((x as i128) + 0x1_0000_0000_0000_0000i128) as u64
    }
}

pub(crate) fn bits_to_i64(b: u64) -> (r: i64)
    ensures
        r == bits_i64(b),
{
    if b < 0x8000_0000_0000_0000 {
        b as i64
    } else {
        ((b as i128) - 0x1_0000_0000_0000_0000i128) as i64
    }
}

/// A negative start line clamps to zero.
pub open spec fn clamp_line(l: i64) -> u64 {
    if l < 0 {
        0
    } else {
        l as u64
    }
}

/// An address wider than the platform's pointer clamps to zero.
pub open spec fn addr_spec(a: u64) -> u64 {
    if a <= usize::MAX as u64 {
        a
    } else {
        0
    }
}

/// The model after registering a mapping: each of its two strings is
/// interned, then its record deduplicated, and its shifted id
/// reported; the first of those whose container would grow past the
/// cap stops the step with no id, keeping what came before it.
pub open spec fn add_mapping_spec(m0: ProfileModel, mp: api::MappingIn) -> (
    ProfileModel,
    Option<int>,
) {
    if !intern_ok(m0.strs, mp.filename) {
        (m0, None)
    } else {
        let fid = intern_id(m0.strs, mp.filename);
        let s1 = intern_strs(m0.strs, mp.filename);
        if !intern_ok(s1, mp.build_id) {
            (ProfileModel { strs: s1, ..m0 }, None)
        } else {
            let bid = intern_id(s1, mp.build_id);
            let s2 = intern_strs(s1, mp.build_id);
            let key = seq![
                mp.memory_start,
                mp.memory_limit,
                mp.file_offset,
                fid as u64,
                bid as u64,
            ];
            if !ded_ok(m0.maps, key) {
                (ProfileModel { strs: s2, ..m0 }, None)
            } else {
                (
                    ProfileModel { strs: s2, maps: ded_elems(m0.maps, key), ..m0 },
                    Some(ded_idx(m0.maps, key) + 1),
                )
            }
        }
    }
}

/// The model after registering a function, as for [`add_mapping_spec`]:
/// three strings interned, then the record deduplicated, each step
/// refusing only growth past the cap.
pub open spec fn add_function_spec(m0: ProfileModel, f: api::FunctionIn) -> (
    ProfileModel,
    Option<int>,
) {
    if !intern_ok(m0.strs, f.name) {
        (m0, None)
    } else {
        let nid = intern_id(m0.strs, f.name);
        let s1 = intern_strs(m0.strs, f.name);
        if !intern_ok(s1, f.system_name) {
            (ProfileModel { strs: s1, ..m0 }, None)
        } else {
            let sid = intern_id(s1, f.system_name);
            let s2 = intern_strs(s1, f.system_name);
            if !intern_ok(s2, f.filename) {
                (ProfileModel { strs: s2, ..m0 }, None)
            } else {
                let fid = intern_id(s2, f.filename);
                let s3 = intern_strs(s2, f.filename);
                let key = seq![nid as u64, sid as u64, fid as u64, clamp_line(f.start_line)];
                if !ded_ok(m0.funs, key) {
                    (ProfileModel { strs: s3, ..m0 }, None)
                } else {
                    (
                        ProfileModel { strs: s3, funs: ded_elems(m0.funs, key), ..m0 },
                        Some(ded_idx(m0.funs, key) + 1),
                    )
                }
            }
        }
    }
}

/// The string table after interning an optional string.
pub open spec fn intern_opt_strs(strs: Seq<Seq<char>>, o: Option<Seq<char>>) -> Seq<Seq<char>> {
    match o {
        Some(s) => intern_strs(strs, s),
        None => strs,
    }
}

/// The id of an optional string; an absent string is id 0.
pub open spec fn intern_opt_id(strs: Seq<Seq<char>>, o: Option<Seq<char>>) -> int {
    match o {
        Some(s) => intern_id(strs, s),
        None => 0,
    }
}

/// The flat record of one label: key id, str id, num bits, num unit id.
pub open spec fn label_rec(strs: Seq<Seq<char>>, l: api::LabelIn) -> Seq<u64> {
    let kid = intern_id(strs, l.key);
    let s1 = intern_strs(strs, l.key);
    let sid = intern_opt_id(s1, l.str);
    let s2 = intern_opt_strs(s1, l.str);
    let nid = intern_opt_id(s2, l.num_unit);
    seq![kid as u64, sid as u64, i64_bits(l.num), nid as u64]
}

/// The string table after interning one label's strings.
pub open spec fn label_strs(strs: Seq<Seq<char>>, l: api::LabelIn) -> Seq<Seq<char>> {
    intern_opt_strs(intern_opt_strs(intern_strs(strs, l.key), l.str), l.num_unit)
}

/// The string table and flat record after interning one label's up to
/// three strings: the first intern whose table would grow past the cap
/// stops the label with no record, keeping what came before it.
pub open spec fn label_spec(strs: Seq<Seq<char>>, l: api::LabelIn) -> (
    Seq<Seq<char>>,
    Option<Seq<u64>>,
) {
    if !intern_ok(strs, l.key) {
        (strs, None)
    } else {
        let s1 = intern_strs(strs, l.key);
        if !intern_opt_ok(s1, l.str) {
            (s1, None)
        } else {
            let s2 = intern_opt_strs(s1, l.str);
            if !intern_opt_ok(s2, l.num_unit) {
                (s2, None)
            } else {
                (label_strs(strs, l), Some(label_rec(strs, l)))
            }
        }
    }
}

/// The string table and the concatenated flat label records after
/// interning every label's strings, in order; a failing label keeps
/// the table interned so far and no records come out.
pub open spec fn labels_spec(strs: Seq<Seq<char>>, ls: Seq<api::LabelIn>) -> (
    Seq<Seq<char>>,
    Option<Seq<u64>>,
)
    decreases ls.len(),
{
    if ls.len() == 0 {
        (strs, Some(Seq::empty()))
    } else {
        let (sp, fo) = labels_spec(strs, ls.drop_last());
        match fo {
            None => (sp, None),
            Some(flat) => {
                let (sn, ro) = label_spec(sp, ls.last());
                match ro {
                    None => (sn, None),
                    Some(rec) => (sn, Some(flat + rec)),
                }
            },
        }
    }
}

/// The model and the function-id/line pairs after registering each line's
/// function, in order; a failing function step keeps the model so far
/// and yields no pairs.
pub open spec fn lines_spec(m0: ProfileModel, lines: Seq<api::LineIn>) -> (
    ProfileModel,
    Option<Seq<(u64, u64)>>,
)
    decreases lines.len(),
{
    if lines.len() == 0 {
        (m0, Some(Seq::empty()))
    } else {
        let (mp, po) = lines_spec(m0, lines.drop_last());
        match po {
            None => (mp, None),
            Some(prs) => {
                let (mn, fo) = add_function_spec(mp, lines.last().function);
                match fo {
                    None => (mn, None),
                    Some(fid) => (mn, Some(prs.push((fid as u64, i64_bits(lines.last().line))))),
                }
            },
        }
    }
}

/// Function-id/line pairs, flattened.
pub open spec fn flat_pairs(ps: Seq<(u64, u64)>) -> Seq<u64>
    decreases ps.len(),
{
    if ps.len() == 0 {
        Seq::empty()
    } else {
        flat_pairs(ps.drop_last()) + seq![ps.last().0, ps.last().1]
    }
}

/// The flat record of a location with shifted mapping id `mid`.
pub open spec fn location_key(mid: int, l: api::LocationIn, pairs: Seq<(u64, u64)>) -> Seq<u64> {
    seq![
        mid as u64,
        addr_spec(l.address),
        if l.is_folded {
            1u64
        } else {
            0u64
        },
        pairs.len() as u64,
    ] + flat_pairs(pairs)
}

/// The model after registering one location: its mapping, its lines'
/// functions, then the location record itself. Any step's *Full* keeps
/// the model interned so far and yields no id, as does a location
/// record that would grow the set past the cap.
pub open spec fn add_location_spec(m0: ProfileModel, l: api::LocationIn) -> (
    ProfileModel,
    Option<int>,
) {
    let (m1, mo) = add_mapping_spec(m0, l.mapping);
    match mo {
        None => (m1, None),
        Some(mid) => {
            let (m2, po) = lines_spec(m1, l.lines);
            match po {
                None => (m2, None),
                Some(pairs) => {
                    let key = location_key(mid, l, pairs);
                    if !ded_ok(m2.locs, key) {
                        (m2, None)
                    } else {
                        (
                            ProfileModel { locs: ded_elems(m2.locs, key), ..m2 },
                            Some(ded_idx(m2.locs, key) + 1),
                        )
                    }
                },
            }
        },
    }
}

/// The model and shifted location ids after registering each location in
/// order; on *Full* the model processed so far is kept and no ids come out.
pub open spec fn locs_spec(m0: ProfileModel, ls: Seq<api::LocationIn>) -> (
    ProfileModel,
    Option<Seq<u64>>,
)
    decreases ls.len(),
{
    if ls.len() == 0 {
        (m0, Some(Seq::empty()))
    } else {
        let (mp, ids) = locs_spec(m0, ls.drop_last());
        match ids {
            None => (mp, None),
            Some(ids) => {
                let (mn, lid) = add_location_spec(mp, ls.last());
                match lid {
                    None => (mn, None),
                    Some(lid) => (mn, Some(ids.push(lid as u64))),
                }
            },
        }
    }
}

/// A sample's flat key: location count, location ids, label count, labels.
pub open spec fn sample_key_spec(loc_ids: Seq<u64>, nlab: int, lflat: Seq<u64>) -> Seq<u64> {
    seq![loc_ids.len() as u64] + loc_ids + seq![nlab as u64] + lflat
}

/// Wrapping elementwise sum; positions past `b` keep their value.
pub open spec fn sum_vals(a: Seq<i64>, b: Seq<i64>) -> Seq<i64> {
    Seq::new(
        a.len(),
        |i: int|
            if i < b.len() {
                vstd::wrapping::i64_specs::wrapping_add(a[i], b[i])
            } else {
                a[i]
            },
    )
}

/// The model and reported id after adding a sample.
///
/// A value count that does not match the sample types yields id 0 and no
/// change. Otherwise the labels' strings are interned first, then each
/// location (which can fail with *Full*, keeping the partial model and
/// yielding no id). A sample key already present has the new values
/// summed elementwise into its stored values and reports the existing
/// 1-based id; a new key is appended and reports the next 1-based id.
pub open spec fn add_spec(m0: ProfileModel, s: api::SampleIn) -> (ProfileModel, Option<int>) {
    if s.values.len() != m0.stypes.len() {
        (m0, Some(0))
    } else {
        let (lstrs, lfo) = labels_spec(m0.strs, s.labels);
        let m1 = ProfileModel { strs: lstrs, ..m0 };
        match lfo {
            None => (m1, None),
            Some(lflat) => {
                let (m2, ids) = locs_spec(m1, s.locations);
                match ids {
                    None => (m2, None),
                    Some(loc_ids) => {
                        let key = sample_key_spec(loc_ids, s.labels.len() as int, lflat);
                        if m2.skeys.contains(key) {
                            let idx = m2.skeys.index_of(key);
                            (
                                ProfileModel {
                                    svals: m2.svals.update(idx, sum_vals(m2.svals[idx], s.values)),
                                    ..m2
                                },
                                Some(idx + 1),
                            )
                        } else if m2.skeys.len() >= CONTAINER_MAX {
                            (m2, None)
                        } else {
                            (
                                ProfileModel {
                                    skeys: m2.skeys.push(key),
                                    svals: m2.svals.push(s.values),
                                    ..m2
                                },
                                Some(m2.skeys.len() as int + 1),
                            )
                        }
                    },
                }
            },
        }
    }
}

/// The encoded duration: the monotonic span's nanoseconds, saturating
/// to `i64::MAX` when they do not fit.
pub open spec fn saturated_duration_nanos(d: std::time::Duration) -> i64 {
    if duration_nanos_of(d) > i64::MAX {
        i64::MAX
    } else {
        duration_nanos_of(d) as i64
    }
}

/// The encoded epoch offset: the span's nanoseconds, or zero when the
/// start time precedes the epoch (underflow) or the nanoseconds do not
/// fit an `i64` (overflow).
pub open spec fn epoch_time_nanos(span: Option<std::time::Duration>) -> i64 {
    match span {
        Some(d) => if duration_nanos_of(d) > i64::MAX {
            0
        } else {
            duration_nanos_of(d) as i64
        },
        None => 0,
    }
}

/// A string-table id as the schema's int64; out-of-range ids clamp to 0.
pub open spec fn id_i64(v: u64) -> i64 {
    if v <= i64::MAX as u64 {
        v as i64
    } else {
        0
    }
}

pub(crate) fn id_to_i64(v: u64) -> (r: i64)
    ensures
        r == id_i64(v),
{
    if v <= (i64::MAX as u64) {
        v as i64
    } else {
        0
    }
}

/// The pprof mapping message for the record inserted at index `i`.
pub open spec fn mapping_matches(pm: crate::pprof::Mapping, i: int, r: Seq<u64>) -> bool {
    &&& pm.id == i + 1
    &&& pm.memory_start == r[0]
    &&& pm.memory_limit == r[1]
    &&& pm.file_offset == r[2]
    &&& pm.filename == id_i64(r[3])
    &&& pm.build_id == id_i64(r[4])
}

/// The pprof location message for the record inserted at index `i`.
pub open spec fn location_matches(pl: crate::pprof::Location, i: int, r: Seq<u64>) -> bool {
    &&& pl.id == i + 1
    &&& pl.mapping_id == r[0]
    &&& pl.address == r[1]
    &&& pl.is_folded == (r[2] != 0)
    &&& pl.line@.len() == r[3]
    &&& forall|k: int| 0 <= k < pl.line@.len() ==> (#[trigger] pl.line@[k]).function_id == r[4 + 2
        * k] && pl.line@[k].line == bits_i64(r[5 + 2 * k])
}

/// The pprof function message for the record inserted at index `i`.
pub open spec fn function_matches(pf: crate::pprof::Function, i: int, r: Seq<u64>) -> bool {
    &&& pf.id == i + 1
    &&& pf.name == id_i64(r[0])
    &&& pf.system_name == id_i64(r[1])
    &&& pf.filename == id_i64(r[2])
    &&& pf.start_line == id_i64(r[3])
}

/// The pprof sample message for a stored sample key and its values.
pub open spec fn sample_matches(ps: crate::pprof::Sample, k: Seq<u64>, vals: Seq<i64>) -> bool {
    let nl = k[0] as int;
    &&& ps.location_id@.len() == nl
    &&& forall|j: int| 0 <= j < nl ==> ps.location_id@[j] == k[1 + j]
    &&& ps.value@ == vals
    &&& ps.label@.len() == k[nl + 1] as int
    &&& forall|j: int| 0 <= j < ps.label@.len() ==> {
        let pl = #[trigger] ps.label@[j];
        &&& pl.key == id_i64(k[nl + 2 + 4 * j])
        &&& pl.str == id_i64(k[nl + 3 + 4 * j])
        &&& pl.num == bits_i64(k[nl + 4 + 4 * j])
        &&& pl.num_unit == id_i64(k[nl + 5 + 4 * j])
    }
}

/// The pprof message a model projects to: arrays in insertion order with
/// 1-based contiguous ids, the model's string table, values, period and
/// the given times.
pub open spec fn pprof_matches(
    p: crate::pprof::Profile,
    m: ProfileModel,
    tn: i64,
    dn: i64,
) -> bool {
    &&& p.sample_type@.len() == m.stypes.len()
    &&& forall|i: int| 0 <= i < m.stypes.len() ==> (#[trigger] p.sample_type@[i]).typ == id_i64(
        m.stypes[i].0,
    ) && p.sample_type@[i].unit == id_i64(m.stypes[i].1)
    &&& p.mapping@.len() == m.maps.len()
    &&& forall|i: int| 0 <= i < m.maps.len() ==> mapping_matches(#[trigger] p.mapping@[i], i, m.maps[i])
    &&& p.location@.len() == m.locs.len()
    &&& forall|i: int| 0 <= i < m.locs.len() ==> location_matches(
        #[trigger] p.location@[i],
        i,
        m.locs[i],
    )
    &&& p.function@.len() == m.funs.len()
    &&& forall|i: int| 0 <= i < m.funs.len() ==> function_matches(
        #[trigger] p.function@[i],
        i,
        m.funs[i],
    )
    &&& p.string_table@.len() == m.strs.len()
    &&& forall|i: int| 0 <= i < m.strs.len() ==> (#[trigger] p.string_table@[i])@ == m.strs[i]
    &&& p.sample@.len() == m.skeys.len()
    &&& forall|i: int| 0 <= i < m.skeys.len() ==> sample_matches(
        #[trigger] p.sample@[i],
        m.skeys[i],
        m.svals[i],
    )
    &&& p.time_nanos == tn
    &&& p.duration_nanos == dn
    &&& p.period == m.period
    &&& match m.ptype {
        Some(pt) => p.period_type matches Some(v) && v.typ == id_i64(pt.0) && v.unit == id_i64(
            pt.1,
        ),
        None => p.period_type is None,
    }
}

/// `s1` is a prefix of `s2`: everything interned or deduplicated so far
/// keeps its position when the container grows.
pub open spec fn seq_ext<T>(s1: Seq<T>, s2: Seq<T>) -> bool {
    &&& s1.len() <= s2.len()
    &&& forall|i: int| 0 <= i < s1.len() ==> s2[i] == s1[i]
}

/// Offering a dedup container an element it was already offered, in any
/// distinct extension of the resulting container, reports the same
/// stable index and changes nothing.
pub proof fn lemma_ded_replay<T>(s1: Seq<T>, s2: Seq<T>, x: T)
    requires
        distinct_seq(s2),
        seq_ext(ded_elems(s1, x), s2),
    ensures
        s2.contains(x),
        ded_idx(s2, x) == ded_idx(s1, x),
        ded_elems(s2, x) == s2,
{
    if s1.contains(x) {
        let j = s1.index_of(x);
        assert(0 <= j < s1.len() && s1[j] == x);
        assert(s2[j] == x);
        assert(s2.contains(x));
        let j2 = s2.index_of(x);
        if j2 != j {
            assert(s2[j2] != s2[j]);
        }
    } else {
        let pushed = s1.push(x);
        assert(pushed[s1.len() as int] == x);
        assert(s2[s1.len() as int] == x);
        assert(s2.contains(x));
        let j2 = s2.index_of(x);
        if j2 != s1.len() {
            assert(s2[j2] != s2[s1.len() as int]);
        }
    }
}

/// Membership after a dedup offer: exactly the old elements and the
/// offered one.
pub proof fn lemma_ded_membership<T>(s: Seq<T>, x: T)
    ensures
        forall|y: T| ded_elems(s, x).contains(y) <==> s.contains(y) || y == x,
{
    let post = ded_elems(s, x);
    assert forall|y: T| post.contains(y) implies s.contains(y) || y == x by {
        let j = choose|j: int| 0 <= j < post.len() && post[j] == y;
        if j < s.len() {
            assert(s[j] == y);
        }
    }
    assert forall|y: T| s.contains(y) || y == x implies post.contains(y) by {
        if s.contains(y) {
            let j = choose|j: int| 0 <= j < s.len() && s[j] == y;
            assert(post[j] == y);
        } else {
            assert(!s.contains(x));
            assert(post[s.len() as int] == x);
        }
    }
}

/// A dedup container only grows at the end.
pub proof fn lemma_ded_ext<T>(s: Seq<T>, x: T)
    ensures
        seq_ext(s, ded_elems(s, x)),
{
}

/// Interning preserves distinctness.
pub proof fn lemma_ded_distinct<T>(s: Seq<T>, x: T)
    requires
        distinct_seq(s),
    ensures
        distinct_seq(ded_elems(s, x)),
{
    if !s.contains(x) {
        lemma_distinct_push(s, x);
    }
}

proof fn lemma_ext_trans<T>(a: Seq<T>, b: Seq<T>, c: Seq<T>)
    requires
        seq_ext(a, b),
        seq_ext(b, c),
    ensures
        seq_ext(a, c),
{
}

/// The containers dedup folds grow, all distinct.
pub open spec fn dedup_distinct(m: ProfileModel) -> bool {
    &&& distinct_seq(m.strs)
    &&& distinct_seq(m.maps)
    &&& distinct_seq(m.funs)
    &&& distinct_seq(m.locs)
}

/// `b` extends `a` in every dedup container.
pub open spec fn dedup_ext_model(a: ProfileModel, b: ProfileModel) -> bool {
    &&& seq_ext(a.strs, b.strs)
    &&& seq_ext(a.maps, b.maps)
    &&& seq_ext(a.funs, b.funs)
    &&& seq_ext(a.locs, b.locs)
}

proof fn lemma_opt_props(strs: Seq<Seq<char>>, o: Option<Seq<char>>)
    requires
        distinct_seq(strs),
    ensures
        distinct_seq(intern_opt_strs(strs, o)),
        seq_ext(strs, intern_opt_strs(strs, o)),
{
    match o {
        Some(s) => {
            lemma_ded_distinct(strs, s);
            lemma_ded_ext(strs, s);
        },
        None => {},
    }
}

proof fn lemma_label_spec_props(strs: Seq<Seq<char>>, l: api::LabelIn)
    requires
        distinct_seq(strs),
    ensures
        distinct_seq(label_spec(strs, l).0),
        seq_ext(strs, label_spec(strs, l).0),
{
    let s1 = intern_strs(strs, l.key);
    lemma_ded_distinct(strs, l.key);
    lemma_ded_ext(strs, l.key);
    let s2 = intern_opt_strs(s1, l.str);
    lemma_opt_props(s1, l.str);
    lemma_opt_props(s2, l.num_unit);
    lemma_ext_trans(strs, s1, s2);
    lemma_ext_trans(strs, s2, intern_opt_strs(s2, l.num_unit));
}

proof fn lemma_labels_props(strs: Seq<Seq<char>>, ls: Seq<api::LabelIn>)
    requires
        distinct_seq(strs),
    ensures
        distinct_seq(labels_spec(strs, ls).0),
        seq_ext(strs, labels_spec(strs, ls).0),
    decreases ls.len(),
{
    if ls.len() != 0 {
        lemma_labels_props(strs, ls.drop_last());
        let (sp, fo) = labels_spec(strs, ls.drop_last());
        match fo {
            None => {},
            Some(_) => {
                lemma_label_spec_props(sp, ls.last());
                lemma_ext_trans(strs, sp, labels_spec(strs, ls).0);
            },
        }
    }
}

proof fn lemma_function_props(m: ProfileModel, f: api::FunctionIn)
    requires
        dedup_distinct(m),
    ensures
        ({
            let (m1, fo) = add_function_spec(m, f);
            &&& dedup_distinct(m1)
            &&& dedup_ext_model(m, m1)
            &&& m1.maps == m.maps
            &&& m1.locs == m.locs
            &&& m1.skeys == m.skeys
            &&& m1.svals == m.svals
            &&& m1.stypes == m.stypes
            &&& fo matches Some(i) ==> 1 <= i
        }),
{
    let s1 = intern_strs(m.strs, f.name);
    lemma_ded_distinct(m.strs, f.name);
    lemma_ded_ext(m.strs, f.name);
    let s2 = intern_strs(s1, f.system_name);
    lemma_ded_distinct(s1, f.system_name);
    lemma_ded_ext(s1, f.system_name);
    let s3 = intern_strs(s2, f.filename);
    lemma_ded_distinct(s2, f.filename);
    lemma_ded_ext(s2, f.filename);
    lemma_ext_trans(m.strs, s1, s2);
    lemma_ext_trans(m.strs, s2, s3);
    let key = seq![
        intern_id(m.strs, f.name) as u64,
        intern_id(s1, f.system_name) as u64,
        intern_id(s2, f.filename) as u64,
        clamp_line(f.start_line),
    ];
    lemma_ded_distinct(m.funs, key);
    lemma_ded_ext(m.funs, key);
}

proof fn lemma_mapping_props(m: ProfileModel, mp: api::MappingIn)
    requires
        dedup_distinct(m),
    ensures
        ({
            let (m1, mo) = add_mapping_spec(m, mp);
            &&& dedup_distinct(m1)
            &&& dedup_ext_model(m, m1)
            &&& m1.funs == m.funs
            &&& m1.locs == m.locs
            &&& m1.skeys == m.skeys
            &&& m1.svals == m.svals
            &&& m1.stypes == m.stypes
            &&& mo matches Some(i) ==> 1 <= i
        }),
{
    let s1 = intern_strs(m.strs, mp.filename);
    lemma_ded_distinct(m.strs, mp.filename);
    lemma_ded_ext(m.strs, mp.filename);
    let s2 = intern_strs(s1, mp.build_id);
    lemma_ded_distinct(s1, mp.build_id);
    lemma_ded_ext(s1, mp.build_id);
    lemma_ext_trans(m.strs, s1, s2);
    let key = seq![
        mp.memory_start,
        mp.memory_limit,
        mp.file_offset,
        intern_id(m.strs, mp.filename) as u64,
        intern_id(s1, mp.build_id) as u64,
    ];
    lemma_ded_distinct(m.maps, key);
    lemma_ded_ext(m.maps, key);
}

proof fn lemma_lines_props(m: ProfileModel, lines: Seq<api::LineIn>)
    requires
        dedup_distinct(m),
    ensures
        ({
            let (m1, po) = lines_spec(m, lines);
            &&& dedup_distinct(m1)
            &&& dedup_ext_model(m, m1)
            &&& m1.maps == m.maps
            &&& m1.locs == m.locs
            &&& m1.skeys == m.skeys
            &&& m1.svals == m.svals
            &&& m1.stypes == m.stypes
        }),
    decreases lines.len(),
{
    if lines.len() != 0 {
        lemma_lines_props(m, lines.drop_last());
        let (mp, po) = lines_spec(m, lines.drop_last());
        match po {
            None => {},
            Some(_) => {
                lemma_function_props(mp, lines.last().function);
                let (m1, _) = add_function_spec(mp, lines.last().function);
                lemma_ext_trans(m.strs, mp.strs, m1.strs);
                lemma_ext_trans(m.funs, mp.funs, m1.funs);
            },
        }
    }
}

proof fn lemma_location_props(m: ProfileModel, l: api::LocationIn)
    requires
        dedup_distinct(m),
    ensures
        ({
            let (m1, lid) = add_location_spec(m, l);
            &&& dedup_distinct(m1)
            &&& dedup_ext_model(m, m1)
            &&& m1.skeys == m.skeys
            &&& m1.svals == m.svals
            &&& m1.stypes == m.stypes
            &&& lid matches Some(i) ==> 1 <= i
        }),
{
    lemma_mapping_props(m, l.mapping);
    let (m1, mo) = add_mapping_spec(m, l.mapping);
    match mo {
        None => {},
        Some(mid) => {
            lemma_lines_props(m1, l.lines);
            let (m2, po) = lines_spec(m1, l.lines);
            lemma_ext_trans(m.strs, m1.strs, m2.strs);
            lemma_ext_trans(m.maps, m1.maps, m2.maps);
            lemma_ext_trans(m.funs, m1.funs, m2.funs);
            match po {
                None => {},
                Some(pairs) => {
                    let key = location_key(mid, l, pairs);
                    if ded_ok(m2.locs, key) {
                        lemma_ded_distinct(m2.locs, key);
                        lemma_ded_ext(m2.locs, key);
                        let m3 = add_location_spec(m, l).0;
                        lemma_ext_trans(m.locs, m2.locs, m3.locs);
                    }
                },
            }
        },
    }
}

proof fn lemma_locs_props(m: ProfileModel, ls: Seq<api::LocationIn>)
    requires
        dedup_distinct(m),
    ensures
        ({
            let (m1, ids) = locs_spec(m, ls);
            &&& dedup_distinct(m1)
            &&& dedup_ext_model(m, m1)
            &&& m1.skeys == m.skeys
            &&& m1.svals == m.svals
            &&& m1.stypes == m.stypes
        }),
    decreases ls.len(),
{
    if ls.len() != 0 {
        lemma_locs_props(m, ls.drop_last());
        let (mp, ids) = locs_spec(m, ls.drop_last());
        match ids {
            None => {},
            Some(_) => {
                lemma_location_props(mp, ls.last());
                let (mn, _) = add_location_spec(mp, ls.last());
                lemma_ext_trans(m.strs, mp.strs, mn.strs);
                lemma_ext_trans(m.maps, mp.maps, mn.maps);
                lemma_ext_trans(m.funs, mp.funs, mn.funs);
                lemma_ext_trans(m.locs, mp.locs, mn.locs);
            },
        }
    }
}

proof fn lemma_opt_replay(s1: Seq<Seq<char>>, s2: Seq<Seq<char>>, o: Option<Seq<char>>)
    requires
        distinct_seq(s2),
        seq_ext(intern_opt_strs(s1, o), s2),
    ensures
        intern_opt_id(s2, o) == intern_opt_id(s1, o),
        intern_opt_strs(s2, o) == s2,
        intern_opt_ok(s2, o),
{
    match o {
        Some(s) => {
            lemma_ded_replay(s1, s2, s);
        },
        None => {},
    }
}

proof fn lemma_label_spec_replay(s1: Seq<Seq<char>>, s2: Seq<Seq<char>>, l: api::LabelIn)
    requires
        distinct_seq(s1),
        distinct_seq(s2),
        label_spec(s1, l).1 is Some,
        seq_ext(label_spec(s1, l).0, s2),
    ensures
        label_spec(s2, l).0 == s2,
        label_spec(s2, l).1 == label_spec(s1, l).1,
{
    let a1 = intern_strs(s1, l.key);
    let a2 = intern_opt_strs(a1, l.str);
    let a3 = intern_opt_strs(a2, l.num_unit);
    lemma_ded_distinct(s1, l.key);
    lemma_opt_props(a1, l.str);
    lemma_opt_props(a2, l.num_unit);
    lemma_ext_trans(a1, a2, a3);
    lemma_ext_trans(a1, a3, s2);
    lemma_ext_trans(a2, a3, s2);
    lemma_ded_replay(s1, s2, l.key);
    lemma_opt_replay(a1, s2, l.str);
    lemma_opt_replay(a2, s2, l.num_unit);
    assert(label_spec(s2, l).0 == s2);
}

proof fn lemma_labels_replay(s0: Seq<Seq<char>>, s2: Seq<Seq<char>>, ls: Seq<api::LabelIn>)
    requires
        distinct_seq(s0),
        distinct_seq(s2),
        labels_spec(s0, ls).1 is Some,
        seq_ext(labels_spec(s0, ls).0, s2),
    ensures
        labels_spec(s2, ls).0 == s2,
        labels_spec(s2, ls).1 == labels_spec(s0, ls).1,
    decreases ls.len(),
{
    if ls.len() != 0 {
        let (prev, fo) = labels_spec(s0, ls.drop_last());
        lemma_labels_props(s0, ls.drop_last());
        lemma_label_spec_props(prev, ls.last());
        lemma_ext_trans(prev, labels_spec(s0, ls).0, s2);
        lemma_labels_replay(s0, s2, ls.drop_last());
        lemma_label_spec_replay(prev, s2, ls.last());
    }
}

proof fn lemma_mapping_replay(ma: ProfileModel, m2: ProfileModel, mp: api::MappingIn)
    requires
        dedup_distinct(m2),
        add_mapping_spec(ma, mp).1 is Some,
        seq_ext(add_mapping_spec(ma, mp).0.strs, m2.strs),
        seq_ext(add_mapping_spec(ma, mp).0.maps, m2.maps),
    ensures
        add_mapping_spec(m2, mp).0 == m2,
        add_mapping_spec(m2, mp).1 == add_mapping_spec(ma, mp).1,
{
    let s1 = intern_strs(ma.strs, mp.filename);
    let s2v = intern_strs(s1, mp.build_id);
    lemma_ded_ext(s1, mp.build_id);
    lemma_ext_trans(s1, s2v, m2.strs);
    lemma_ded_replay(ma.strs, m2.strs, mp.filename);
    lemma_ded_replay(s1, m2.strs, mp.build_id);
    let key = seq![
        mp.memory_start,
        mp.memory_limit,
        mp.file_offset,
        intern_id(ma.strs, mp.filename) as u64,
        intern_id(s1, mp.build_id) as u64,
    ];
    lemma_ded_replay(ma.maps, m2.maps, key);
    assert(add_mapping_spec(m2, mp).0 == m2);
}

proof fn lemma_function_replay(ma: ProfileModel, m2: ProfileModel, f: api::FunctionIn)
    requires
        dedup_distinct(m2),
        add_function_spec(ma, f).1 is Some,
        seq_ext(add_function_spec(ma, f).0.strs, m2.strs),
        seq_ext(add_function_spec(ma, f).0.funs, m2.funs),
    ensures
        add_function_spec(m2, f).0 == m2,
        add_function_spec(m2, f).1 == add_function_spec(ma, f).1,
{
    let s1 = intern_strs(ma.strs, f.name);
    let s2 = intern_strs(s1, f.system_name);
    let s3 = intern_strs(s2, f.filename);
    lemma_ded_ext(s1, f.system_name);
    lemma_ded_ext(s2, f.filename);
    lemma_ext_trans(s1, s2, s3);
    lemma_ext_trans(s1, s3, m2.strs);
    lemma_ext_trans(s2, s3, m2.strs);
    lemma_ded_replay(ma.strs, m2.strs, f.name);
    lemma_ded_replay(s1, m2.strs, f.system_name);
    lemma_ded_replay(s2, m2.strs, f.filename);
    let key = seq![
        intern_id(ma.strs, f.name) as u64,
        intern_id(s1, f.system_name) as u64,
        intern_id(s2, f.filename) as u64,
        clamp_line(f.start_line),
    ];
    lemma_ded_replay(ma.funs, m2.funs, key);
    assert(add_function_spec(m2, f).0 == m2);
}

proof fn lemma_lines_replay(ma: ProfileModel, m2: ProfileModel, lines: Seq<api::LineIn>)
    requires
        dedup_distinct(ma),
        dedup_distinct(m2),
        lines_spec(ma, lines).1 is Some,
        seq_ext(lines_spec(ma, lines).0.strs, m2.strs),
        seq_ext(lines_spec(ma, lines).0.funs, m2.funs),
    ensures
        lines_spec(m2, lines).0 == m2,
        lines_spec(m2, lines).1 == lines_spec(ma, lines).1,
    decreases lines.len(),
{
    if lines.len() != 0 {
        let (mp, _) = lines_spec(ma, lines.drop_last());
        lemma_lines_props(ma, lines.drop_last());
        lemma_function_props(mp, lines.last().function);
        let (mb, _) = lines_spec(ma, lines);
        lemma_ext_trans(mp.strs, mb.strs, m2.strs);
        lemma_ext_trans(mp.funs, mb.funs, m2.funs);
        lemma_lines_replay(ma, m2, lines.drop_last());
        lemma_function_replay(mp, m2, lines.last().function);
    }
}

proof fn lemma_location_replay(ma: ProfileModel, m2: ProfileModel, l: api::LocationIn)
    requires
        dedup_distinct(ma),
        dedup_distinct(m2),
        add_location_spec(ma, l).1 is Some,
        dedup_ext_model(add_location_spec(ma, l).0, m2),
    ensures
        add_location_spec(m2, l).0 == m2,
        add_location_spec(m2, l).1 == add_location_spec(ma, l).1,
{
    let (m1, mo) = add_mapping_spec(ma, l.mapping);
    let mid = mo->Some_0;
    lemma_mapping_props(ma, l.mapping);
    let (ml, po) = lines_spec(m1, l.lines);
    lemma_lines_props(m1, l.lines);
    let pairs = po->Some_0;
    let key = location_key(mid, l, pairs);
    let mb = add_location_spec(ma, l).0;
    lemma_ded_ext(ml.locs, key);
    lemma_ext_trans(m1.strs, ml.strs, m2.strs);
    lemma_ext_trans(m1.maps, ml.maps, m2.maps);
    lemma_mapping_replay(ma, m2, l.mapping);
    lemma_ext_trans(ml.funs, mb.funs, m2.funs);
    lemma_ext_trans(ml.strs, mb.strs, m2.strs);
    lemma_lines_replay(m1, m2, l.lines);
    lemma_ext_trans(ml.locs, mb.locs, m2.locs);
    lemma_ded_replay(ml.locs, m2.locs, key);
    assert(add_location_spec(m2, l).0 == m2);
}

proof fn lemma_locs_replay(ma: ProfileModel, m2: ProfileModel, ls: Seq<api::LocationIn>)
    requires
        dedup_distinct(ma),
        dedup_distinct(m2),
        locs_spec(ma, ls).1 is Some,
        dedup_ext_model(locs_spec(ma, ls).0, m2),
    ensures
        locs_spec(m2, ls).0 == m2,
        locs_spec(m2, ls).1 == locs_spec(ma, ls).1,
    decreases ls.len(),
{
    if ls.len() != 0 {
        let (mp, ids) = locs_spec(ma, ls.drop_last());
        lemma_locs_props(ma, ls.drop_last());
        let (mb, idsb) = locs_spec(ma, ls);
        match ids {
            None => {
                assert(idsb is None);
            },
            Some(_) => {
                lemma_location_props(mp, ls.last());
                let (mn, lid) = add_location_spec(mp, ls.last());
                assert(lid is Some);
                lemma_ext_trans(mp.strs, mn.strs, m2.strs);
                lemma_ext_trans(mp.maps, mn.maps, m2.maps);
                lemma_ext_trans(mp.funs, mn.funs, m2.funs);
                lemma_ext_trans(mp.locs, mn.locs, m2.locs);
                lemma_locs_replay(ma, m2, ls.drop_last());
                lemma_location_replay(mp, m2, ls.last());
            },
        }
    }
}

/// Adding two samples with equal locations and labels folds them into
/// one entry: the second add reports the same 1-based id as the first,
/// stores no new sample, and sums the second sample's values
/// elementwise into the entry the first add used. Since only growth
/// past the capacity cap is refused and the second add grows nothing,
/// no saturation headroom is needed.
pub proof fn lemma_add_twice(m: ProfileModel, s1: api::SampleIn, s2: api::SampleIn)
    requires
        wf_model(m),
        s1.locations == s2.locations,
        s1.labels == s2.labels,
        s1.values.len() == m.stypes.len(),
        s2.values.len() == m.stypes.len(),
        add_spec(m, s1).1 is Some,
    ensures
        ({
            let (m1, r1) = add_spec(m, s1);
            let (m2, r2) = add_spec(m1, s2);
            let id = r1->Some_0;
            &&& r2 == Some(id)
            &&& 1 <= id <= m1.skeys.len()
            &&& m2.skeys == m1.skeys
            &&& m2.svals == m1.svals.update(id - 1, sum_vals(m1.svals[id - 1], s2.values))
        }),
{
    let (m1, r1) = add_spec(m, s1);
    let labels = s1.labels;
    let locs = s1.locations;
    let (lstrs, lfo) = labels_spec(m.strs, labels);
    let mlab = ProfileModel { strs: lstrs, ..m };
    lemma_labels_props(m.strs, labels);
    assert(dedup_distinct(mlab));
    assert(lfo is Some);
    let lflat1 = lfo->Some_0;
    let (mloc, ids1) = locs_spec(mlab, locs);
    lemma_locs_props(mlab, locs);
    lemma_locs_spec_frame(mlab, locs);
    let loc_ids = ids1->Some_0;
    let key = sample_key_spec(loc_ids, labels.len() as int, lflat1);
    // the final stage only touches skeys and svals
    assert(m1.strs == mloc.strs);
    assert(m1.maps == mloc.maps);
    assert(m1.funs == mloc.funs);
    assert(m1.locs == mloc.locs);
    assert(m1.stypes == m.stypes);
    assert(dedup_distinct(m1));
    // second pass: label interning replays without change
    lemma_ext_trans(lstrs, mloc.strs, m1.strs);
    lemma_labels_replay(m.strs, m1.strs, labels);
    let mlab2 = ProfileModel { strs: labels_spec(m1.strs, labels).0, ..m1 };
    assert(mlab2 == m1);
    assert(labels_spec(m1.strs, labels).1 == Some(lflat1));
    // second pass: location processing replays without change
    assert(dedup_ext_model(mloc, m1));
    lemma_locs_replay(mlab, m1, locs);
    assert(locs_spec(m1, locs).0 == m1);
    assert(locs_spec(m1, locs).1 == Some(loc_ids));
    // the key is present exactly where the first add left or found it
    let id = r1->Some_0;
    if mloc.skeys.contains(key) {
        let idx = mloc.skeys.index_of(key);
        assert(m1.skeys == mloc.skeys);
        assert(id == idx + 1);
        assert(m1.skeys.contains(key));
        assert(m1.skeys.index_of(key) == idx);
        assert(m1.svals == mloc.svals.update(idx, sum_vals(mloc.svals[idx], s1.values)));
    } else {
        assert(m1.skeys == mloc.skeys.push(key));
        assert(id == mloc.skeys.len() + 1);
        lemma_distinct_push(mloc.skeys, key);
        assert(m1.skeys[id - 1] == key);
        lemma_distinct_index(m1.skeys, key, id - 1);
        assert(m1.skeys.contains(key));
        assert(m1.skeys.index_of(key) == id - 1);
    }
    assert(m1.skeys.contains(key));
    assert(m1.skeys.index_of(key) == id - 1);
}

/// Interning is idempotent and referentially transparent on a fixed
/// table: interning a string right after interning it yields the same
/// id and leaves the table unchanged.
pub proof fn lemma_intern_idempotent(strs: Seq<Seq<char>>, s: Seq<char>)
    ensures
        intern_strs(intern_strs(strs, s), s) == intern_strs(strs, s),
        intern_id(intern_strs(strs, s), s) == intern_id(strs, s),
{
    if !strs.contains(s) {
        let pushed = strs.push(s);
        assert(pushed[strs.len() as int] == s);
        assert(pushed.contains(s));
        let j = pushed.index_of(s);
        if j < strs.len() {
            assert(strs[j] == pushed[j]);
            assert(strs.contains(s));
        }
        assert(j == strs.len());
    }
}

/// Every well-formed profile stores the empty string at id 0.
pub proof fn lemma_empty_string_at_zero(m: ProfileModel)
    requires
        wf_model(m),
    ensures
        m.strs.len() > 0,
        m.strs[0] == Seq::<char>::empty(),
{
}

/// In any message matching a model, the entity arrays carry 1-based
/// contiguous ids: the entry at index `i` has id `i + 1`, so re-parsing
/// a serialized buffer finds `mapping[i].id == i + 1`, and likewise for
/// locations and functions.
pub proof fn lemma_projected_ids_one_based(
    p: crate::pprof::Profile,
    m: ProfileModel,
    tn: i64,
    dn: i64,
)
    requires
        pprof_matches(p, m, tn, dn),
    ensures
        forall|i: int| 0 <= i < p.mapping@.len() ==> (#[trigger] p.mapping@[i]).id == i + 1,
        forall|i: int| 0 <= i < p.location@.len() ==> (#[trigger] p.location@[i]).id == i + 1,
        forall|i: int| 0 <= i < p.function@.len() ==> (#[trigger] p.function@[i]).id == i + 1,
{
    assert forall|i: int| 0 <= i < p.mapping@.len() implies (#[trigger] p.mapping@[i]).id == i
        + 1 by {
        assert(mapping_matches(p.mapping@[i], i, m.maps[i]));
    }
    assert forall|i: int| 0 <= i < p.location@.len() implies (#[trigger] p.location@[i]).id == i
        + 1 by {
        assert(location_matches(p.location@[i], i, m.locs[i]));
    }
    assert forall|i: int| 0 <= i < p.function@.len() implies (#[trigger] p.function@[i]).id == i
        + 1 by {
        assert(function_matches(p.function@[i], i, m.funs[i]));
    }
}

/// Re-parsing a serialized buffer under the pprof schema recovers
/// 1-based contiguous mapping ids: for a message matching the model
/// (as every buffer `serialize` returns encodes), the i-th mapping
/// entry among the re-parsed fields is a payload whose own first field
/// is the id `i + 1`. Together with
/// [`crate::pprof::lemma_parse_profile`], which shows the buffer walks
/// back to exactly those fields, this pins what a consumer re-reads.
pub proof fn lemma_reparse_mapping_ids_one_based(
    p: crate::pprof::Profile,
    m: ProfileModel,
    tn: i64,
    dn: i64,
)
    requires
        pprof_matches(p, m, tn, dn),
    ensures
        forall|i: int| 0 <= i < p.mapping@.len()
            ==> #[trigger] crate::pprof::fields_of_mappings(p.mapping@)[i] == (
            3int,
            crate::pprof::WireField::Bytes(crate::pprof::enc_mapping(p.mapping@[i])),
        ) && (crate::pprof::parse_fields(crate::pprof::enc_mapping(p.mapping@[i])) matches Some(fs)
            && fs.len() >= 1 && fs[0] == (1int, crate::pprof::WireField::Varint(i + 1))),
{
    assert forall|i: int| 0 <= i < p.mapping@.len() implies (#[trigger] p.mapping@[i]).id != 0
        && p.mapping@[i].id == i + 1 by {
        assert(mapping_matches(p.mapping@[i], i, m.maps[i]));
    }
    crate::pprof::lemma_reparse_mapping_ids(p);
}

/// As [`lemma_reparse_mapping_ids_one_based`], for the location
/// entries.
pub proof fn lemma_reparse_location_ids_one_based(
    p: crate::pprof::Profile,
    m: ProfileModel,
    tn: i64,
    dn: i64,
)
    requires
        pprof_matches(p, m, tn, dn),
        crate::pprof::parseable(p),
    ensures
        forall|i: int| 0 <= i < p.location@.len()
            ==> #[trigger] crate::pprof::fields_of_locations(p.location@)[i] == (
            4int,
            crate::pprof::WireField::Bytes(crate::pprof::enc_location(p.location@[i])),
        ),
        forall|i: int| 0 <= i < p.location@.len() ==> (crate::pprof::parse_fields(
            crate::pprof::enc_location(#[trigger] p.location@[i]),
        ) matches Some(fs) && fs.len() >= 1 && fs[0] == (
            1int,
            crate::pprof::WireField::Varint(i + 1),
        )),
{
    assert forall|i: int| 0 <= i < p.location@.len() implies (#[trigger] p.location@[i]).id != 0
        && p.location@[i].id == i + 1 by {
        assert(location_matches(p.location@[i], i, m.locs[i]));
    }
    crate::pprof::lemma_reparse_location_ids(p);
    assert forall|i: int| 0 <= i < p.location@.len() implies (crate::pprof::parse_fields(
        crate::pprof::enc_location(#[trigger] p.location@[i]),
    ) matches Some(fs) && fs.len() >= 1 && fs[0] == (
        1int,
        crate::pprof::WireField::Varint(i + 1),
    )) by {
        assert(crate::pprof::fields_of_locations(p.location@)[i] == (
            4int,
            crate::pprof::WireField::Bytes(crate::pprof::enc_location(p.location@[i])),
        ));
        assert(p.location@[i].id == i + 1);
    }
}

/// As [`lemma_reparse_mapping_ids_one_based`], for the function
/// entries.
pub proof fn lemma_reparse_function_ids_one_based(
    p: crate::pprof::Profile,
    m: ProfileModel,
    tn: i64,
    dn: i64,
)
    requires
        pprof_matches(p, m, tn, dn),
    ensures
        forall|i: int| 0 <= i < p.function@.len()
            ==> #[trigger] crate::pprof::fields_of_functions(p.function@)[i] == (
            5int,
            crate::pprof::WireField::Bytes(crate::pprof::enc_function(p.function@[i])),
        ) && (crate::pprof::parse_fields(crate::pprof::enc_function(p.function@[i])) matches Some(
            fs,
        ) && fs.len() >= 1 && fs[0] == (1int, crate::pprof::WireField::Varint(i + 1))),
{
    assert forall|i: int| 0 <= i < p.function@.len() implies (#[trigger] p.function@[i]).id != 0
        && p.function@[i].id == i + 1 by {
        assert(function_matches(p.function@[i], i, m.funs[i]));
    }
    crate::pprof::lemma_reparse_function_ids(p);
}

/// The sample types of a model, resolved to their strings.
pub open spec fn resolve_types(m: ProfileModel) -> Seq<(Seq<char>, Seq<char>)> {
    Seq::new(m.stypes.len(), |i: int| (m.strs[m.stypes[i].0 as int], m.strs[m.stypes[i].1 as int]))
}

/// The period of a model, resolved to its strings, if it has one.
pub open spec fn resolve_period(m: ProfileModel) -> Option<(Seq<char>, Seq<char>, i64)> {
    match m.ptype {
        Some(p) => Some((m.strs[p.0 as int], m.strs[p.1 as int], m.period)),
        None => None,
    }
}

/// The model of the fresh profile a reset swaps in: built anew from the
/// old model's resolved sample types and period.
pub open spec fn reset_spec(m: ProfileModel) -> ProfileModel {
    build_spec(resolve_types(m), resolve_period(m))
}

proof fn lemma_types_strs_props(strs0: Seq<Seq<char>>, sts: Seq<(Seq<char>, Seq<char>)>)
    requires
        distinct_seq(strs0),
    ensures
        distinct_seq(types_strs(strs0, sts)),
        seq_ext(strs0, types_strs(strs0, sts)),
    decreases sts.len(),
{
    if sts.len() != 0 {
        lemma_types_strs_props(strs0, sts.drop_last());
        let prev = types_strs(strs0, sts.drop_last());
        let t = sts.last();
        lemma_ded_distinct(prev, t.0);
        lemma_ded_distinct(intern_strs(prev, t.0), t.1);
        lemma_ded_ext(prev, t.0);
        lemma_ded_ext(intern_strs(prev, t.0), t.1);
    }
}

proof fn lemma_types_resolve(strs0: Seq<Seq<char>>, sts: Seq<(Seq<char>, Seq<char>)>)
    requires
        distinct_seq(strs0),
        strs0.len() + 2 * sts.len() <= u64::MAX,
    ensures
        ({
            let table = types_strs(strs0, sts);
            let ids = types_ids(strs0, sts);
            &&& ids.len() == sts.len()
            &&& table.len() <= strs0.len() + 2 * sts.len()
            &&& forall|i: int| 0 <= i < sts.len() ==> (#[trigger] ids[i]).0 < table.len()
                && ids[i].1 < table.len() && table[ids[i].0 as int] == sts[i].0
                && table[ids[i].1 as int] == sts[i].1
        }),
    decreases sts.len(),
{
    if sts.len() != 0 {
        lemma_types_resolve(strs0, sts.drop_last());
        lemma_types_strs_props(strs0, sts.drop_last());
        let prev = types_strs(strs0, sts.drop_last());
        let prev_ids = types_ids(strs0, sts.drop_last());
        let t = sts.last();
        let tid = intern_id(prev, t.0);
        let mid = intern_strs(prev, t.0);
        let uid = intern_id(mid, t.1);
        let table = types_strs(strs0, sts);
        if prev.contains(t.0) {
            assert(prev[tid] == t.0);
        } else {
            assert(mid[tid] == t.0);
        }
        if mid.contains(t.1) {
            assert(mid[uid] == t.1);
        } else {
            assert(table[uid] == t.1);
        }
        lemma_ded_ext(prev, t.0);
        lemma_ded_ext(mid, t.1);
        assert(table[tid] == t.0);
        assert forall|i: int| 0 <= i < sts.len() implies (#[trigger] types_ids(strs0, sts)[i]).0
            < table.len() && types_ids(strs0, sts)[i].1 < table.len() && table[types_ids(
            strs0,
            sts,
        )[i].0 as int] == sts[i].0 && table[types_ids(strs0, sts)[i].1 as int] == sts[i].1 by {
            if i < sts.len() - 1 {
                assert(types_ids(strs0, sts)[i] == prev_ids[i]);
                assert(table[prev_ids[i].0 as int] == prev[prev_ids[i].0 as int]);
                assert(table[prev_ids[i].1 as int] == prev[prev_ids[i].1 as int]);
            } else {
                assert(types_ids(strs0, sts)[i] == (tid as u64, uid as u64));
            }
        }
    }
}

proof fn lemma_types_strs_membership(strs0: Seq<Seq<char>>, sts: Seq<(Seq<char>, Seq<char>)>)
    ensures
        forall|s: Seq<char>| types_strs(strs0, sts).contains(s) <==> strs0.contains(s) || (exists|
            i: int,
        | 0 <= i < sts.len() && ((#[trigger] sts[i]).0 == s || sts[i].1 == s)),
    decreases sts.len(),
{
    if sts.len() != 0 {
        lemma_types_strs_membership(strs0, sts.drop_last());
        let prev = types_strs(strs0, sts.drop_last());
        let t = sts.last();
        lemma_ded_membership(prev, t.0);
        lemma_ded_membership(intern_strs(prev, t.0), t.1);
        assert forall|s: Seq<char>| types_strs(strs0, sts).contains(s) implies strs0.contains(s)
            || (exists|i: int| 0 <= i < sts.len() && ((#[trigger] sts[i]).0 == s || sts[i].1 == s)) by {
            if s == t.0 || s == t.1 {
                assert(sts[sts.len() - 1].0 == s || sts[sts.len() - 1].1 == s);
            } else {
                assert(prev.contains(s));
                if !strs0.contains(s) {
                    let i = choose|i: int|
                        0 <= i < sts.drop_last().len() && ((#[trigger] sts.drop_last()[i]).0 == s
                            || sts.drop_last()[i].1 == s);
                    assert(sts[i].0 == s || sts[i].1 == s);
                }
            }
        }
        assert forall|s: Seq<char>|
            strs0.contains(s) || (exists|i: int|
                0 <= i < sts.len() && ((#[trigger] sts[i]).0 == s
                    || sts[i].1 == s)) implies types_strs(strs0, sts).contains(s) by {
            if !strs0.contains(s) {
                let i = choose|i: int|
                    0 <= i < sts.len() && ((#[trigger] sts[i]).0 == s || sts[i].1 == s);
                if i < sts.len() - 1 {
                    assert(sts.drop_last()[i].0 == s || sts.drop_last()[i].1 == s);
                    assert(prev.contains(s));
                }
            }
        }
    }
}

/// After a reset the fresh profile keeps the period value and, by
/// string content, the sample types and the period type. Its mapping,
/// location, function and sample containers are empty, and its string
/// table is distinct and holds exactly the empty string at id 0 plus
/// each sample-type and period-type string.
pub proof fn lemma_reset_preserves_schema(m: ProfileModel)
    requires
        wf_model(m),
    ensures
        ({
            let mb = reset_spec(m);
            let sts = resolve_types(m);
            &&& mb.maps == Seq::<Seq<u64>>::empty()
            &&& mb.locs == Seq::<Seq<u64>>::empty()
            &&& mb.funs == Seq::<Seq<u64>>::empty()
            &&& mb.skeys == Seq::<Seq<u64>>::empty()
            &&& mb.svals == Seq::<Seq<i64>>::empty()
            &&& mb.period == m.period
            &&& resolve_types(mb) == resolve_types(m)
            &&& resolve_period(mb) == resolve_period(m)
            &&& distinct_seq(mb.strs)
            &&& mb.strs.len() >= 1 && mb.strs[0] == Seq::<char>::empty()
            &&& forall|s: Seq<char>| mb.strs.contains(s) <==> (s == Seq::<char>::empty() || (
            exists|i: int| 0 <= i < sts.len() && ((#[trigger] sts[i]).0 == s || sts[i].1 == s)) || (
            resolve_period(m) matches Some(p) && (p.0 == s || p.1 == s)))
        }),
{
    let base = seq![Seq::<char>::empty()];
    let sts = resolve_types(m);
    let per = resolve_period(m);
    let mb = reset_spec(m);
    assert(distinct_seq(base));
    lemma_types_strs_props(base, sts);
    lemma_types_resolve(base, sts);
    lemma_types_strs_membership(base, sts);
    let table = types_strs(base, sts);
    let ids = types_ids(base, sts);
    assert(table[0] == Seq::<char>::empty());
    match per {
        None => {
            assert(mb.strs == table);
            assert(resolve_types(mb) =~= sts);
            assert forall|s: Seq<char>| mb.strs.contains(s) implies (s == Seq::<char>::empty() || (
            exists|i: int| 0 <= i < sts.len() && ((#[trigger] sts[i]).0 == s || sts[i].1 == s))
                || false) by {
                if !(exists|i: int|
                    0 <= i < sts.len() && ((#[trigger] sts[i]).0 == s || sts[i].1 == s))
                    && s != Seq::<char>::empty() {
                    assert(base.contains(s));
                    let j = choose|j: int| 0 <= j < base.len() && base[j] == s;
                    assert(j == 0);
                }
            }
        },
        Some(p) => {
            let tid = intern_id(table, p.0);
            let mid = intern_strs(table, p.0);
            let uid = intern_id(mid, p.1);
            lemma_ded_distinct(table, p.0);
            lemma_ded_distinct(mid, p.1);
            lemma_ded_ext(table, p.0);
            lemma_ded_ext(mid, p.1);
            lemma_ded_membership(table, p.0);
            lemma_ded_membership(mid, p.1);
            if table.contains(p.0) {
                assert(table[tid] == p.0);
            } else {
                assert(mid[tid] == p.0);
            }
            if mid.contains(p.1) {
                assert(mid[uid] == p.1);
            } else {
                assert(mb.strs[uid] == p.1);
            }
            assert(mb.strs[tid] == p.0);
            assert(mb.ptype == Some((tid as u64, uid as u64)));
            assert(resolve_period(mb) =~= per);
            assert forall|i: int| 0 <= i < sts.len() implies #[trigger] resolve_types(mb)[i]
                == sts[i] by {
                assert(mb.strs[ids[i].0 as int] == table[ids[i].0 as int]);
                assert(mb.strs[ids[i].1 as int] == table[ids[i].1 as int]);
            }
            assert(resolve_types(mb) =~= sts);
            assert forall|s: Seq<char>| mb.strs.contains(s) implies (s == Seq::<char>::empty() || (
            exists|i: int| 0 <= i < sts.len() && ((#[trigger] sts[i]).0 == s || sts[i].1 == s)) || (
            per matches Some(pp) && (pp.0 == s || pp.1 == s))) by {
                if s != p.0 && s != p.1 {
                    assert(table.contains(s));
                    if !(exists|i: int|
                        0 <= i < sts.len() && ((#[trigger] sts[i]).0 == s || sts[i].1 == s))
                        && s != Seq::<char>::empty() {
                        assert(base.contains(s));
                        let j = choose|j: int| 0 <= j < base.len() && base[j] == s;
                        assert(j == 0);
                    }
                }
            }
            assert forall|s: Seq<char>|
                (s == Seq::<char>::empty() || (exists|i: int|
                    0 <= i < sts.len() && ((#[trigger] sts[i]).0 == s || sts[i].1 == s)) || (
                per matches Some(pp) && (pp.0 == s
                    || pp.1 == s))) implies mb.strs.contains(s) by {
                if s == Seq::<char>::empty() {
                    assert(base[0] == s);
                    assert(base.contains(s));
                    assert(table.contains(s));
                } else if (exists|i: int|
                    0 <= i < sts.len() && ((#[trigger] sts[i]).0 == s || sts[i].1 == s)) {
                    assert(table.contains(s));
                } else {
                    assert(s == p.0 || s == p.1);
                    assert(mid.contains(p.0));
                }
            }
        },
    }
}

/// Builds a profile from sample types and an optional period, interning
/// their strings into the fresh string table.
pub struct ProfileBuilder<'a> {
    sample_types: Vec<api::ValueType<'a>>,
    period: Option<api::Period<'a>>,
}

/// The string pair of each sample type.
pub open spec fn vt_views<'a>(v: Seq<api::ValueType<'a>>) -> Seq<(Seq<char>, Seq<char>)> {
    Seq::new(v.len(), |i: int| (v[i].typ@, v[i].unit@))
}

/// The string pair and value of a period, if one is given.
pub open spec fn period_views<'a>(p: Option<api::Period<'a>>) -> Option<(Seq<char>, Seq<char>, i64)> {
    match p {
        Some(p) => Some((p.typ.typ@, p.typ.unit@, p.value)),
        None => None,
    }
}

/// The string table after interning each sample type's strings in order.
pub open spec fn types_strs(strs0: Seq<Seq<char>>, sts: Seq<(Seq<char>, Seq<char>)>) -> Seq<
    Seq<char>,
>
    decreases sts.len(),
{
    if sts.len() == 0 {
        strs0
    } else {
        let prev = types_strs(strs0, sts.drop_last());
        intern_strs(intern_strs(prev, sts.last().0), sts.last().1)
    }
}

/// The id pairs assigned while interning each sample type's strings.
pub open spec fn types_ids(strs0: Seq<Seq<char>>, sts: Seq<(Seq<char>, Seq<char>)>) -> Seq<
    (u64, u64),
>
    decreases sts.len(),
{
    if sts.len() == 0 {
        Seq::empty()
    } else {
        let prev = types_strs(strs0, sts.drop_last());
        let tid = intern_id(prev, sts.last().0);
        let strs_t = intern_strs(prev, sts.last().0);
        let uid = intern_id(strs_t, sts.last().1);
        types_ids(strs0, sts.drop_last()).push((tid as u64, uid as u64))
    }
}

/// The model of a freshly built profile: an empty profile whose string
/// table has the empty string followed by the sample-type and period-type
/// strings in first-seen order.
pub open spec fn build_spec(
    sts: Seq<(Seq<char>, Seq<char>)>,
    period: Option<(Seq<char>, Seq<char>, i64)>,
) -> ProfileModel {
    let base = seq![Seq::<char>::empty()];
    let strs1 = types_strs(base, sts);
    let m = ProfileModel {
        strs: strs1,
        maps: Seq::empty(),
        locs: Seq::empty(),
        funs: Seq::empty(),
        skeys: Seq::empty(),
        svals: Seq::empty(),
        stypes: types_ids(base, sts),
        period: 0,
        ptype: None,
    };
    match period {
        None => m,
        Some(p) => {
            let tid = intern_id(strs1, p.0);
            let strs2 = intern_strs(strs1, p.0);
            let uid = intern_id(strs2, p.1);
            let strs3 = intern_strs(strs2, p.1);
            ProfileModel { strs: strs3, period: p.2, ptype: Some((tid as u64, uid as u64)), ..m }
        },
    }
}

/// Registering lines touches only the string table and the function set.
proof fn lemma_lines_spec_frame(m: ProfileModel, lines: Seq<api::LineIn>)
    ensures
        ({
            let (mm, po) = lines_spec(m, lines);
            &&& mm.stypes == m.stypes
            &&& mm.skeys == m.skeys
            &&& mm.svals == m.svals
            &&& mm.period == m.period
            &&& mm.ptype == m.ptype
            &&& mm.locs == m.locs
            &&& mm.maps == m.maps
            &&& po matches Some(prs) ==> prs.len() == lines.len()
        }),
    decreases lines.len(),
{
    if lines.len() != 0 {
        lemma_lines_spec_frame(m, lines.drop_last());
    }
}

/// Registering locations touches only the string table and the mapping,
/// function and location sets.
proof fn lemma_locs_spec_frame(m: ProfileModel, ls: Seq<api::LocationIn>)
    ensures
        ({
            let (mm, ids) = locs_spec(m, ls);
            &&& mm.stypes == m.stypes
            &&& mm.skeys == m.skeys
            &&& mm.svals == m.svals
            &&& mm.period == m.period
            &&& mm.ptype == m.ptype
        }),
    decreases ls.len(),
{
    if ls.len() != 0 {
        lemma_locs_spec_frame(m, ls.drop_last());
        let (mp, ids) = locs_spec(m, ls.drop_last());
        match ids {
            None => {},
            Some(_) => {
                let (m1, mo) = add_mapping_spec(mp, ls.last().mapping);
                match mo {
                    None => {},
                    Some(_) => {
                        lemma_lines_spec_frame(m1, ls.last().lines);
                    },
                }
            },
        }
    }
}

/// Once label processing hits *Full*, the rest are not reached: the
/// fold over any longer prefix keeps the same partial table.
proof fn lemma_labels_none_persists(strs: Seq<Seq<char>>, s: Seq<api::LabelIn>, k: int)
    requires
        0 <= k <= s.len(),
        labels_spec(strs, s.subrange(0, k)).1 is None,
    ensures
        labels_spec(strs, s) == labels_spec(strs, s.subrange(0, k)),
    decreases s.len() - k,
{
    if k == s.len() {
        assert(s.subrange(0, k) =~= s);
    } else {
        lemma_prefix_step(s, k);
        assert(labels_spec(strs, s.subrange(0, k + 1)) == labels_spec(strs, s.subrange(0, k)));
        lemma_labels_none_persists(strs, s, k + 1);
    }
}

/// Once line processing hits *Full*, the rest are not reached: the
/// fold over any longer prefix keeps the same partial model.
proof fn lemma_lines_none_persists(m: ProfileModel, s: Seq<api::LineIn>, k: int)
    requires
        0 <= k <= s.len(),
        lines_spec(m, s.subrange(0, k)).1 is None,
    ensures
        lines_spec(m, s) == lines_spec(m, s.subrange(0, k)),
    decreases s.len() - k,
{
    if k == s.len() {
        assert(s.subrange(0, k) =~= s);
    } else {
        lemma_prefix_step(s, k);
        assert(lines_spec(m, s.subrange(0, k + 1)) == lines_spec(m, s.subrange(0, k)));
        lemma_lines_none_persists(m, s, k + 1);
    }
}

/// Once processing the locations hits *Full*, the rest are not reached:
/// the fold over any longer prefix keeps the same partial model.
proof fn lemma_locs_none_persists(m1: ProfileModel, s: Seq<api::LocationIn>, k: int)
    requires
        0 <= k <= s.len(),
        locs_spec(m1, s.subrange(0, k)).1 is None,
    ensures
        locs_spec(m1, s) == locs_spec(m1, s.subrange(0, k)),
    decreases s.len() - k,
{
    if k == s.len() {
        assert(s.subrange(0, k) =~= s);
    } else {
        lemma_prefix_step(s, k);
        assert(locs_spec(m1, s.subrange(0, k + 1)) == locs_spec(m1, s.subrange(0, k)));
        lemma_locs_none_persists(m1, s, k + 1);
    }
}

/// Copies a value list.
fn copy_i64_vec(v: &Vec<i64>) -> (r: Vec<i64>)
    ensures
        r@ == v@,
{
    let mut r: Vec<i64> = Vec::new();
    let mut i: usize = 0;
    while i < v.len()
        invariant
            i <= v@.len(),
            r@ == v@.subrange(0, i as int),
        decreases v@.len() - i,
    {
        r.push(v[i]);
        proof {
            assert(r@ =~= v@.subrange(0, i + 1));
        }
        i += 1;
    }
    proof {
        assert(r@ =~= v@);
    }
    r
}

proof fn lemma_prefix_step<T>(s: Seq<T>, i: int)
    requires
        0 <= i < s.len(),
    ensures
        s.subrange(0, i + 1).drop_last() =~= s.subrange(0, i),
        s.subrange(0, i + 1).last() == s[i],
{
}

impl<'a> ProfileBuilder<'a> {
    pub fn new() -> (b: Self)
        ensures
            b.types_view() == Seq::<(Seq<char>, Seq<char>)>::empty(),
            b.period_view() is None,
    {
        let b = ProfileBuilder { sample_types: Vec::new(), period: None };
        proof {
            assert(b.types_view() =~= Seq::<(Seq<char>, Seq<char>)>::empty());
        }
        b
    }

    /// The string pair of each sample type this builder carries.
    pub closed spec fn types_view(self) -> Seq<(Seq<char>, Seq<char>)> {
        vt_views(self.sample_types@)
    }

    /// The period this builder carries, as strings and a value.
    pub closed spec fn period_view(self) -> Option<(Seq<char>, Seq<char>, i64)> {
        period_views(self.period)
    }

    pub fn sample_types(self, sample_types: Vec<api::ValueType<'a>>) -> (b: Self)
        ensures
            b.types_view() == vt_views(sample_types@),
            b.period_view() == self.period_view(),
    {
        ProfileBuilder { sample_types, period: self.period }
    }

    pub fn period(self, period: Option<api::Period<'a>>) -> (b: Self)
        ensures
            b.types_view() == self.types_view(),
            b.period_view() == period_views(period),
    {
        ProfileBuilder { sample_types: self.sample_types, period }
    }

    /// Builds the profile: the sample-type strings are interned pairwise
    /// in order, then the period-type strings, into a fresh string table.
    pub fn build(self) -> (p: Profile)
        requires
            3 + 2 * self.types_view().len() <= CONTAINER_MAX,
        ensures
            p.wf(),
            p.model() == build_spec(self.types_view(), self.period_view()),
    {
        let mut p = Profile::new();
        let ghost base = p.model().strs;
        let ghost sts = self.types_view();
        proof {
            assert(sts.subrange(0, 0) =~= Seq::<(Seq<char>, Seq<char>)>::empty());
        }
        let n = self.sample_types.len();
        let mut vts: Vec<ValueType> = Vec::new();
        let mut i: usize = 0;
        while i < n
            invariant
                0 <= i <= n,
                n == self.sample_types@.len(),
                sts == self.types_view(),
                3 + 2 * sts.len() <= CONTAINER_MAX,
                base == seq![Seq::<char>::empty()],
                p.wf(),
                p.model().strs.len() <= 1 + 2 * i,
                p.model().strs == types_strs(base, sts.subrange(0, i as int)),
                p.model().maps == Seq::<Seq<u64>>::empty(),
                p.model().locs == Seq::<Seq<u64>>::empty(),
                p.model().funs == Seq::<Seq<u64>>::empty(),
                p.model().skeys == Seq::<Seq<u64>>::empty(),
                p.model().svals == Seq::<Seq<i64>>::empty(),
                p.model().stypes == Seq::<(u64, u64)>::empty(),
                p.model().period == 0,
                p.model().ptype is None,
                vts@.len() == i,
                vts_ids(vts@) == types_ids(base, sts.subrange(0, i as int)),
                forall|j: int| 0 <= j < vts@.len() ==> (#[trigger] vts@[j]).typ.0
                    < p.model().strs.len() && vts@[j].unit.0 < p.model().strs.len(),
            decreases n - i,
        {
            let ghost strs_before = p.model().strs;
            let t = self.sample_types[i];
            let tid = p.intern_in(t.typ);
            let uid = p.intern_in(t.unit);
            vts.push(ValueType { typ: tid, unit: uid });
            proof {
                lemma_prefix_step(sts, i as int);
                assert(sts[i as int] == (t.typ@, t.unit@));
                assert(p.model().strs == types_strs(base, sts.subrange(0, i + 1)));
                assert(vts_ids(vts@) =~= types_ids(base, sts.subrange(0, i + 1)));
            }
            i += 1;
        }
        proof {
            assert(sts.subrange(0, n as int) =~= sts);
        }
        p.sample_types = vts;
        proof {
            assert(p.wf());
        }
        match &self.period {
            Some(pp) => {
                let tid = p.intern_in(pp.typ.typ);
                let uid = p.intern_in(pp.typ.unit);
                p.period = pp.value;
                p.period_type = Some(ValueType { typ: tid, unit: uid });
            },
            None => {},
        }
        proof {
            assert(p.model() =~~= build_spec(self.types_view(), self.period_view()));
        }
        p
    }
}

impl<'a> Default for ProfileBuilder<'a> {
    fn default() -> (b: Self)
        ensures
            b.types_view() == Seq::<(Seq<char>, Seq<char>)>::empty(),
            b.period_view() is None,
    {
        Self::new()
    }
}

impl Default for Profile {
    fn default() -> (p: Self)
        ensures
            p.wf(),
    {
        Self::new()
    }
}

proof fn lemma_wf_after_intern(pre: Profile, post: Profile, s: Seq<char>)
    requires
        pre.wf(),
        intern_ok(pre.model().strs, s),
        post.model() == (ProfileModel { strs: intern_strs(pre.model().strs, s), ..pre.model() }),
    ensures
        post.wf(),
{
    let m0 = pre.model();
    let m1 = post.model();
    if !m0.strs.contains(s) {
        lemma_distinct_push(m0.strs, s);
        assert(m1.strs[0] == m0.strs[0]);
    }
    assert forall|i: int| 0 <= i < m1.stypes.len() implies (#[trigger] m1.stypes[i]).0
        < m1.strs.len() && m1.stypes[i].1 < m1.strs.len() by {
        assert(m0.stypes[i].0 < m0.strs.len() && m0.stypes[i].1 < m0.strs.len());
    }
}

} // verus!
