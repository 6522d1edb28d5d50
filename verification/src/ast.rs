//! Raw statement types, as the external grammar hands them over.
//!
//! A statement stream is a sequence of comments and raw register
//! declarations. A raw register carries its bit width, the declared
//! bitfields in authored order, and an optional array replication range.

use vstd::prelude::*;

verus! {

/// The mathematical value of one bitfield: an inclusive bit range with a name.
/// An empty name stands for padding or for an anonymous declared field.
pub struct FieldModel {
    pub from: int,
    pub to: int,
    pub name: Seq<char>,
}

/// The mathematical value of a raw register declaration.
pub struct RawRegModel {
    pub bits: int,
    pub name: Seq<char>,
    pub fields: Seq<FieldModel>,
    pub array: Option<RangeModel>,
}

/// The mathematical value of an array replication range.
pub struct RangeModel {
    pub from: int,
    pub to: int,
}

/// The data-model invariant of a raw register declaration: at least one bit
/// wide, and every declared field a real inclusive range of nonnegative bits.
pub open spec fn raw_wf(reg: RawRegModel) -> bool {
    &&& reg.bits >= 1
    &&& forall|i: int|
        0 <= i < reg.fields.len() ==> 0 <= (#[trigger] reg.fields[i]).from <= reg.fields[i].to
}

/// One parsed statement of the register description language.
pub enum Statement {
    Register(Register),
    Comment,
}

/// A raw register declaration: `bits` wide, named `name`, with the declared
/// bitfields in authored (high-to-low) order and an optional array range.
#[derive(Debug, PartialEq)]
pub struct Register {
    pub bits: u32,
    pub name: String,
    pub bits_desc: Vec<Bitfield>,
    pub array: Option<Range>,
}

/// A declared bitfield `[from, to]` (inclusive, `from <= to`) with an
/// optional name; an absent name is carried as the empty string.
#[derive(Debug, PartialEq)]
pub struct Bitfield {
    pub from: u32,
    pub to: u32,
    pub name: String,
}

/// An inclusive index range for an array-of-registers declaration.
#[derive(Debug, PartialEq)]
pub struct Range {
    pub from: u32,
    pub to: u32,
}

impl View for Bitfield {
    type V = FieldModel;

    open spec fn view(&self) -> FieldModel {
        FieldModel { from: self.from as int, to: self.to as int, name: self.name@ }
    }
}

impl View for Range {
    type V = RangeModel;

    open spec fn view(&self) -> RangeModel {
        RangeModel { from: self.from as int, to: self.to as int }
    }
}

impl View for Register {
    type V = RawRegModel;

    open spec fn view(&self) -> RawRegModel {
        RawRegModel {
            bits: self.bits as int,
            name: self.name@,
            fields: self.bits_desc@.map_values(|b: Bitfield| b@),
            array: match self.array {
                Some(r) => Some(r@),
                None => None,
            },
        }
    }
}

impl Bitfield {
    /// The data-model invariant of a declared field: a real inclusive range.
    pub open spec fn wf(self) -> bool {
        self@.from <= self@.to
    }
}

impl Register {
    /// The data-model invariant of a raw register: at least one bit wide,
    /// and every declared field is a real inclusive range.
    pub open spec fn wf(self) -> bool {
        raw_wf(self@)
    }
}

} // verus!
