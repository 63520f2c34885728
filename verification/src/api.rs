//! Input data model handed to the profile aggregation engine by producers.
//!
//! These types carry borrowed string slices; the engine copies what it
//! keeps by interning. Each type has a mathematical view used by the
//! engine's contracts.

use vstd::prelude::*;

verus! {

#[derive(Copy, Clone)]
pub struct ValueType<'a> {
    pub typ: &'a str,
    pub unit: &'a str,
}

pub struct Period<'a> {
    pub typ: ValueType<'a>,
    pub value: i64,
}

#[derive(Copy, Clone, Default)]
pub struct Mapping<'a> {
    /// Address at which the binary (or DLL) is loaded into memory.
    pub memory_start: u64,
    /// The limit of the address range occupied by this mapping.
    pub memory_limit: u64,
    /// Offset in the binary that corresponds to the first mapped address.
    pub file_offset: u64,
    /// The object this entry is loaded from.
    pub filename: &'a str,
    /// A string that uniquely identifies a particular program version.
    pub build_id: &'a str,
}

#[derive(Copy, Clone, Default)]
pub struct Function<'a> {
    /// Name of the function, in human-readable form if available.
    pub name: &'a str,
    /// Name of the function, as identified by the system.
    pub system_name: &'a str,
    /// Source file containing the function.
    pub filename: &'a str,
    /// Line number in source file; negative values clamp to zero.
    pub start_line: i64,
}

#[derive(Copy, Clone)]
pub struct Line<'a> {
    /// The function of this line.
    pub function: Function<'a>,
    /// Line number in source code.
    pub line: i64,
}

#[derive(Clone, Default)]
pub struct Location<'a> {
    pub mapping: Mapping<'a>,
    /// The instruction address for this location, if available.
    pub address: u64,
    /// Lines, innermost inlined function first.
    pub lines: Vec<Line<'a>>,
    /// Whether multiple symbols map to this address.
    pub is_folded: bool,
}

#[derive(Copy, Clone, Default)]
pub struct Label<'a> {
    pub key: &'a str,
    /// At most one of `str` and `num`/`num_unit` is semantically present.
    pub str: Option<&'a str>,
    pub num: i64,
    /// Should only be present when `num` is present.
    pub num_unit: Option<&'a str>,
}

#[derive(Clone)]
pub struct Sample<'a> {
    /// The leaf is at `locations[0]`.
    pub locations: Vec<Location<'a>>,
    /// One value per sample type of the profile.
    pub values: Vec<i64>,
    /// Additional context for this sample.
    pub labels: Vec<Label<'a>>,
}

pub struct ValueTypeIn {
    pub typ: Seq<char>,
    pub unit: Seq<char>,
}

pub struct MappingIn {
    pub memory_start: u64,
    pub memory_limit: u64,
    pub file_offset: u64,
    pub filename: Seq<char>,
    pub build_id: Seq<char>,
}

pub struct FunctionIn {
    pub name: Seq<char>,
    pub system_name: Seq<char>,
    pub filename: Seq<char>,
    pub start_line: i64,
}

pub struct LineIn {
    pub function: FunctionIn,
    pub line: i64,
}

pub struct LocationIn {
    pub mapping: MappingIn,
    pub address: u64,
    pub lines: Seq<LineIn>,
    pub is_folded: bool,
}

pub struct LabelIn {
    pub key: Seq<char>,
    pub str: Option<Seq<char>>,
    pub num: i64,
    pub num_unit: Option<Seq<char>>,
}

pub struct SampleIn {
    pub locations: Seq<LocationIn>,
    pub values: Seq<i64>,
    pub labels: Seq<LabelIn>,
}

impl<'a> View for ValueType<'a> {
    type V = ValueTypeIn;

    open spec fn view(&self) -> ValueTypeIn {
        ValueTypeIn { typ: self.typ@, unit: self.unit@ }
    }
}

impl<'a> View for Mapping<'a> {
    type V = MappingIn;

    open spec fn view(&self) -> MappingIn {
        MappingIn {
            memory_start: self.memory_start,
            memory_limit: self.memory_limit,
            file_offset: self.file_offset,
            filename: self.filename@,
            build_id: self.build_id@,
        }
    }
}

impl<'a> View for Function<'a> {
    type V = FunctionIn;

    open spec fn view(&self) -> FunctionIn {
        FunctionIn {
            name: self.name@,
            system_name: self.system_name@,
            filename: self.filename@,
            start_line: self.start_line,
        }
    }
}

impl<'a> View for Line<'a> {
    type V = LineIn;

    open spec fn view(&self) -> LineIn {
        LineIn { function: self.function@, line: self.line }
    }
}

impl<'a> View for Location<'a> {
    type V = LocationIn;

    open spec fn view(&self) -> LocationIn {
        LocationIn {
            mapping: self.mapping@,
            address: self.address,
            lines: Seq::new(self.lines@.len(), |i: int| self.lines@[i]@),
            is_folded: self.is_folded,
        }
    }
}

impl<'a> View for Label<'a> {
    type V = LabelIn;

    open spec fn view(&self) -> LabelIn {
        LabelIn {
            key: self.key@,
            str: match self.str {
                Some(s) => Some(s@),
                None => None,
            },
            num: self.num,
            num_unit: match self.num_unit {
                Some(s) => Some(s@),
                None => None,
            },
        }
    }
}

impl<'a> View for Sample<'a> {
    type V = SampleIn;

    open spec fn view(&self) -> SampleIn {
        SampleIn {
            locations: Seq::new(self.locations@.len(), |i: int| self.locations@[i]@),
            values: self.values@,
            labels: Seq::new(self.labels@.len(), |i: int| self.labels@[i]@),
        }
    }
}

} // verus!
