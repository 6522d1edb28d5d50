//! A queryable model of hardware system registers.
//!
//! A register is a named, fixed-width value made of contiguous bit fields.
//! This crate normalizes sparse, user-authored field lists into complete,
//! validated layouts, keeps them in a catalog ordered by case-folded name,
//! and drives an interactive prefix-disambiguation engine over that catalog.

pub mod ast;
pub mod catalog;
pub mod prefix_fsm;
pub mod registers;
pub mod text;

use vstd::prelude::*;

use crate::ast::{raw_wf, FieldModel, RawRegModel, Register};

verus! {

/// One contiguous inclusive bit range `[from, to]` of a normalized layout.
/// An empty `name` marks padding synthesized to fill a gap, or a declared
/// field that was authored without a name; the two are not distinguished.
#[derive(Debug, Clone)]
pub struct BitfieldDesc {
    pub from: u32,
    pub to: u32,
    pub name: String,
}

/// A normalized register: `bits` wide, with `fields` ordered from the
/// highest bit range down, and an optional value attached for decoding.
#[derive(Debug, Clone)]
pub struct RegisterDesc {
    pub name: String,
    pub bits: u32,
    pub fields: Vec<BitfieldDesc>,
    pub value: Option<u64>,
}

/// The mathematical value of a normalized register.
#[verifier::ext_equal]
pub struct RegModel {
    pub name: Seq<char>,
    pub bits: int,
    pub fields: Seq<FieldModel>,
    pub value: Option<u64>,
}

impl View for BitfieldDesc {
    type V = FieldModel;

    open spec fn view(&self) -> FieldModel {
        FieldModel { from: self.from as int, to: self.to as int, name: self.name@ }
    }
}

impl View for RegisterDesc {
    type V = RegModel;

    open spec fn view(&self) -> RegModel {
        RegModel {
            name: self.name@,
            bits: self.bits as int,
            fields: self.fields@.map_values(|f: BitfieldDesc| f@),
            value: self.value,
        }
    }
}

/// True when bit `b` lies inside the inclusive range of `f`.
pub open spec fn field_contains(f: FieldModel, b: int) -> bool {
    f.from <= b <= f.to
}

/// True when every bit of `f` lies below the register width `bits`.
/// A reversed range (`from > to`) holds no bit at all.
pub open spec fn field_in_bounds(f: FieldModel, bits: int) -> bool {
    f.from <= f.to ==> f.to < bits
}

/// True when the two fields share at least one bit.
pub open spec fn fields_overlap(f: FieldModel, g: FieldModel) -> bool {
    f.from <= f.to && g.from <= g.to && f.from <= g.to && g.from <= f.to
}

/// Sharing a bit is the same as the arithmetic overlap condition.
proof fn lemma_overlap_iff_common_bit(f: FieldModel, g: FieldModel, b: int)
    requires
        field_contains(f, b),
        field_contains(g, b),
    ensures
        fields_overlap(f, g),
{
}

/// True when no two distinct fields of the sequence share a bit.
pub open spec fn fields_disjoint(fs: Seq<FieldModel>) -> bool {
    forall|i: int, j: int|
        0 <= i < fs.len() && 0 <= j < fs.len() && i != j ==> !#[trigger] fields_overlap(
            fs[i],
            fs[j],
        )
}

/// True when every field of the sequence lies below the register width.
pub open spec fn fields_bounded(fs: Seq<FieldModel>, bits: int) -> bool {
    forall|k: int| 0 <= k < fs.len() ==> field_in_bounds(#[trigger] fs[k], bits)
}

/// The validation rule for a register layout: every bit of every field lies
/// below the register width, and — for registers of at most 64 bits, where a
/// bitmask can track every bit — no two fields share a bit. Wider registers
/// skip the overlap check.
pub open spec fn valid_layout(r: RegModel) -> bool {
    &&& fields_bounded(r.fields, r.bits)
    &&& r.bits <= 64 ==> fields_disjoint(r.fields)
}

/// A synthesized padding field spanning the inclusive bit range `[from, to]`.
pub open spec fn pad_model(from: int, to: int) -> FieldModel {
    FieldModel { from, to, name: Seq::empty() }
}

/// The normalized field list built from the declared fields, given that the
/// bits from `expected + 1` upward are already covered. Walking the declared
/// list in authored order, a padding field is synthesized wherever the next
/// declared field starts below `expected`, and a final padding field fills
/// whatever remains down to bit 0.
pub open spec fn normal_fields(declared: Seq<FieldModel>, expected: int) -> Seq<FieldModel>
    decreases declared.len(),
{
    if declared.len() == 0 {
        if expected >= 0 {
            seq![pad_model(0, expected)]
        } else {
            Seq::empty()
        }
    } else {
        let f = declared[0];
        let pre: Seq<FieldModel> = if expected >= 0 && f.to != expected {
            seq![pad_model(f.to + 1, expected)]
        } else {
            Seq::empty()
        };
        pre + seq![f] + normal_fields(declared.skip(1), f.from - 1)
    }
}

/// True when each declared field after the first starts strictly below the
/// previous declared field's low bit: authored high-to-low with no contact.
pub open spec fn declared_descending(fs: Seq<FieldModel>) -> bool {
    forall|i: int| 1 <= i < fs.len() ==> (#[trigger] fs[i]).to < fs[i - 1].from
}

/// When a raw register passes validation and enters the catalog: every
/// declared bit lies below the register width, and — for widths of at most
/// 64, where overlap is checked — the declared fields descend strictly.
pub open spec fn accepted(reg: RawRegModel) -> bool {
    &&& forall|i: int| 0 <= i < reg.fields.len() ==> (#[trigger] reg.fields[i]).to < reg.bits
    &&& reg.bits <= 64 ==> declared_descending(reg.fields)
}

/// True when the declared fields fit under `expected` in authored order:
/// the first tops out at `expected` or below, and each later one below the
/// preceding field's low bit.
pub open spec fn chain(declared: Seq<FieldModel>, expected: int) -> bool
    decreases declared.len(),
{
    declared.len() == 0 || (declared[0].to <= expected && chain(
        declared.skip(1),
        declared[0].from - 1,
    ))
}

/// True when the fields exactly tile the inclusive bit range `[0, hi]` from
/// the top down: the first ends at `hi`, and each next one resumes directly
/// below where the previous began.
pub open spec fn covers_down(fs: Seq<FieldModel>, hi: int) -> bool
    decreases fs.len(),
{
    if fs.len() == 0 {
        hi == -1
    } else {
        fs[0].to == hi && 0 <= fs[0].from <= fs[0].to && covers_down(
            fs.skip(1),
            fs[0].from - 1,
        )
    }
}

/// Fields authored strictly descending below `expected` form a chain.
proof fn lemma_descending_chain(declared: Seq<FieldModel>, expected: int)
    requires
        forall|i: int| 0 <= i < declared.len() ==> 0 <= (#[trigger] declared[i]).from
            <= declared[i].to,
        declared_descending(declared),
        declared.len() > 0 ==> declared[0].to <= expected,
    ensures
        chain(declared, expected),
    decreases declared.len(),
{
    if declared.len() > 0 {
        let rest = declared.skip(1);
        assert(forall|i: int| 0 <= i < rest.len() ==> rest[i] == declared[i + 1]);
        lemma_descending_chain(rest, declared[0].from - 1);
    }
}

/// A chain of declared fields normalizes to an exact top-down tiling of
/// `[0, expected]`: the synthesized padding closes every gap.
proof fn lemma_chain_covers(declared: Seq<FieldModel>, expected: int)
    requires
        forall|i: int| 0 <= i < declared.len() ==> 0 <= (#[trigger] declared[i]).from
            <= declared[i].to,
        chain(declared, expected),
        expected >= -1,
    ensures
        covers_down(normal_fields(declared, expected), expected),
    decreases declared.len(),
{
    let fs = normal_fields(declared, expected);
    if declared.len() == 0 {
        if expected >= 0 {
            assert(fs == seq![pad_model(0, expected)]);
            assert(fs.skip(1) =~= Seq::<FieldModel>::empty());
            assert(covers_down(fs.skip(1), -1));
            assert(covers_down(fs, expected));
        } else {
            assert(fs =~= Seq::<FieldModel>::empty());
            assert(covers_down(fs, expected));
        }
    } else {
        let f = declared[0];
        let rest = declared.skip(1);
        assert(forall|i: int| 0 <= i < rest.len() ==> rest[i] == declared[i + 1]);
        lemma_chain_covers(rest, f.from - 1);
        let tail = normal_fields(rest, f.from - 1);
        let mid = seq![f] + tail;
        assert(mid[0] == f);
        assert(mid.skip(1) =~= tail);
        assert(covers_down(mid, f.to));
        if expected >= 0 && f.to != expected {
            let pre = seq![pad_model(f.to + 1, expected), f];
            assert(fs =~= seq![pad_model(f.to + 1, expected)] + mid);
            assert(fs[0] == pad_model(f.to + 1, expected));
            assert(fs.skip(1) =~= mid);
            assert(covers_down(fs, expected));
        } else {
            assert(f.to == expected);
            assert(fs =~= mid);
            assert(covers_down(fs, expected));
        }
    }
}

/// An exact top-down tiling of `[0, hi]` is a partition of those bits:
/// every bit is covered, no two fields share a bit, the fields descend
/// strictly by high bit, and each field resumes directly below its
/// predecessor.
pub proof fn lemma_covers_down_partition(fs: Seq<FieldModel>, hi: int)
    requires
        covers_down(fs, hi),
        hi >= -1,
    ensures
        forall|b: int| 0 <= b <= hi ==> covered_upto(fs, fs.len() as int, b),
        fields_disjoint(fs),
        forall|i: int| 0 <= i < fs.len() ==> 0 <= (#[trigger] fs[i]).from <= fs[i].to <= hi,
        forall|i: int| 1 <= i < fs.len() ==> (#[trigger] fs[i]).to < fs[i - 1].to,
        forall|i: int| 1 <= i < fs.len() ==> (#[trigger] fs[i]).to == fs[i - 1].from - 1,
    decreases fs.len(),
{
    if fs.len() > 0 {
        let f = fs[0];
        let rest = fs.skip(1);
        assert(forall|i: int| 0 <= i < rest.len() ==> rest[i] == fs[i + 1]);
        lemma_covers_down_partition(rest, f.from - 1);
        assert forall|b: int| 0 <= b <= hi implies covered_upto(fs, fs.len() as int, b) by {
            if b >= f.from {
                assert(field_contains(fs[0], b));
            } else {
                assert(covered_upto(rest, rest.len() as int, b));
                let k = choose|k: int| 0 <= k < rest.len() && field_contains(rest[k], b);
                assert(field_contains(fs[k + 1], b));
            }
        }
        assert forall|i: int, j: int|
            0 <= i < fs.len() && 0 <= j < fs.len() && i != j implies !#[trigger] fields_overlap(
            fs[i],
            fs[j],
        ) by {
            let (lo, hi_i) = if i < j {
                (j, i)
            } else {
                (i, j)
            };
            if hi_i == 0 {
                assert(fs[lo] == rest[lo - 1]);
                assert(fs[lo].to <= f.from - 1);
            } else {
                assert(fs[lo] == rest[lo - 1] && fs[hi_i] == rest[hi_i - 1]);
                assert(!fields_overlap(rest[lo - 1], rest[hi_i - 1]));
            }
        }
        assert forall|i: int| 0 <= i < fs.len() implies 0 <= (#[trigger] fs[i]).from <= fs[i].to
            <= hi by {
            if i >= 1 {
                assert(fs[i] == rest[i - 1]);
                assert(fs[i].to <= f.from - 1);
            }
        }
        assert forall|i: int| 1 <= i < fs.len() implies (#[trigger] fs[i]).to < fs[i - 1].to
            && fs[i].to == fs[i - 1].from - 1 by {
            assert(fs[i] == rest[i - 1]);
            if i == 1 {
                assert(rest.len() > 0);
                assert(rest[0].to == f.from - 1);
            } else {
                assert(fs[i - 1] == rest[i - 2]);
                assert(rest[i - 1].to == rest[i - 2].from - 1);
                assert(rest[i - 1].to < rest[i - 2].to);
            }
        }
    }
}

/// Coverage: for any accepted raw register the normalized fields partition
/// `[0, bits)` exactly — every bit covered, no bit claimed twice, fields
/// strictly descending and contiguous. Validation forces the declared
/// order for widths up to 64; beyond that the declared fields must descend
/// on their own, since the overlap check is skipped there.
pub proof fn lemma_accepted_partition(reg: RawRegModel)
    requires
        raw_wf(reg),
        accepted(reg),
        reg.bits <= 64 || declared_descending(reg.fields),
    ensures
        covers_down(normal_fields(reg.fields, reg.bits - 1), reg.bits - 1),
        forall|b: int|
            0 <= b < reg.bits ==> #[trigger] covered_upto(
                normal_fields(reg.fields, reg.bits - 1),
                normal_fields(reg.fields, reg.bits - 1).len() as int,
                b,
            ),
        fields_disjoint(normal_fields(reg.fields, reg.bits - 1)),
        forall|i: int|
            1 <= i < normal_fields(reg.fields, reg.bits - 1).len()
                ==> (#[trigger] normal_fields(reg.fields, reg.bits - 1)[i]).to
                == normal_fields(reg.fields, reg.bits - 1)[i - 1].from - 1
                < normal_fields(reg.fields, reg.bits - 1)[i - 1].to,
{
    if reg.fields.len() > 0 {
        assert(reg.fields[0].to <= reg.bits - 1);
    }
    lemma_descending_chain(reg.fields, reg.bits - 1);
    lemma_chain_covers(reg.fields, reg.bits - 1);
    lemma_covers_down_partition(normal_fields(reg.fields, reg.bits - 1), reg.bits - 1);
}

/// Two declared fields that share a bit keep the raw register out of the
/// catalog whenever the register is narrow enough for the overlap check.
pub proof fn lemma_overlap_rejected(reg: RawRegModel, i: int, j: int)
    requires
        raw_wf(reg),
        reg.bits <= 64,
        0 <= i < j < reg.fields.len(),
        fields_overlap(reg.fields[i], reg.fields[j]),
    ensures
        !accepted(reg),
{
    if accepted(reg) {
        lemma_descending_separates(reg.fields, i, j);
        assert(false);
    }
}

/// In a strictly descending declared list, any later field lies entirely
/// below any earlier field's low bit.
proof fn lemma_descending_separates(fs: Seq<FieldModel>, i: int, j: int)
    requires
        forall|k: int| 0 <= k < fs.len() ==> 0 <= (#[trigger] fs[k]).from <= fs[k].to,
        declared_descending(fs),
        0 <= i < j < fs.len(),
    ensures
        fs[j].to < fs[i].from,
    decreases j - i,
{
    if j == i + 1 {
    } else {
        lemma_descending_separates(fs, i, j - 1);
    }
}

/// The normalized descriptor of a raw register, before validation.
pub open spec fn normal_model(reg: RawRegModel) -> RegModel {
    RegModel {
        name: reg.name,
        bits: reg.bits,
        fields: normal_fields(reg.fields, reg.bits - 1),
        value: None,
    }
}

/// A chain of declared fields descends strictly under its bound.
proof fn lemma_chain_descending(declared: Seq<FieldModel>, expected: int)
    requires
        forall|i: int| 0 <= i < declared.len() ==> 0 <= (#[trigger] declared[i]).from
            <= declared[i].to,
        chain(declared, expected),
    ensures
        declared_descending(declared),
        declared.len() > 0 ==> declared[0].to <= expected,
    decreases declared.len(),
{
    if declared.len() > 0 {
        let rest = declared.skip(1);
        assert(forall|i: int| 0 <= i < rest.len() ==> rest[i] == declared[i + 1]);
        lemma_chain_descending(rest, declared[0].from - 1);
        assert forall|i: int| 1 <= i < declared.len() implies (#[trigger] declared[i]).to
            < declared[i - 1].from by {
            if i == 1 {
                assert(declared[1] == rest[0]);
            } else {
                assert(declared[i] == rest[i - 1] && declared[i - 1] == rest[i - 2]);
                assert(rest[i - 1].to < rest[i - 2].from);
            }
        }
    }
}

/// Every declared field appears among its normalized fields.
proof fn lemma_normal_contains_declared(declared: Seq<FieldModel>, expected: int, i: int)
    requires
        0 <= i < declared.len(),
    ensures
        exists|p: int|
            0 <= p < normal_fields(declared, expected).len() && #[trigger] normal_fields(
                declared,
                expected,
            )[p] == declared[i],
    decreases declared.len(),
{
    let fs = normal_fields(declared, expected);
    let f = declared[0];
    let pre: Seq<FieldModel> = if expected >= 0 && f.to != expected {
        seq![pad_model(f.to + 1, expected)]
    } else {
        Seq::<FieldModel>::empty()
    };
    let tail = normal_fields(declared.skip(1), f.from - 1);
    assert(fs == pre + seq![f] + tail);
    if i == 0 {
        assert(fs[pre.len() as int] == f);
    } else {
        let rest = declared.skip(1);
        assert(rest[i - 1] == declared[i]);
        lemma_normal_contains_declared(rest, f.from - 1, i - 1);
        let p = choose|p: int|
            0 <= p < tail.len() && #[trigger] tail[p] == rest[i - 1];
        assert(fs[pre.len() + 1 + p] == tail[p]);
    }
}

/// Normalized fields stay below the register width whenever the declared
/// fields do: synthesized padding never reaches past the width.
proof fn lemma_normal_fields_bounded(declared: Seq<FieldModel>, expected: int, bits: int)
    requires
        forall|i: int| 0 <= i < declared.len() ==> 0 <= (#[trigger] declared[i]).from
            <= declared[i].to,
        forall|i: int| 0 <= i < declared.len() ==> (#[trigger] declared[i]).to < bits,
        -1 <= expected < bits,
    ensures
        fields_bounded(normal_fields(declared, expected), bits),
    decreases declared.len(),
{
    let fs = normal_fields(declared, expected);
    if declared.len() == 0 {
    } else {
        let f = declared[0];
        let rest = declared.skip(1);
        assert(forall|i: int| 0 <= i < rest.len() ==> rest[i] == declared[i + 1]);
        lemma_normal_fields_bounded(rest, f.from - 1, bits);
        let tail = normal_fields(rest, f.from - 1);
        let pre: Seq<FieldModel> = if expected >= 0 && f.to != expected {
            seq![pad_model(f.to + 1, expected)]
        } else {
            Seq::<FieldModel>::empty()
        };
        assert(fs == pre + seq![f] + tail);
        assert forall|k: int| 0 <= k < fs.len() implies field_in_bounds(
            #[trigger] fs[k],
            bits,
        ) by {
            if k < pre.len() {
                assert(fs[k] == pad_model(f.to + 1, expected));
            } else if k == pre.len() {
                assert(fs[k] == f);
            } else {
                assert(fs[k] == tail[k - pre.len() - 1]);
            }
        }
    }
}

/// True when some field of the sequence holds a bit above `e`.
spec fn touches_above(fs: Seq<FieldModel>, e: int) -> bool {
    exists|i: int|
        0 <= i < fs.len() && (#[trigger] fs[i]).from <= fs[i].to && fs[i].to > e
}

/// Declared fields that break the authored order leave a mark on the
/// normalized layout: two fields share a bit, or a field sticks out above
/// the covered bound.
proof fn lemma_unchained_overlaps(declared: Seq<FieldModel>, expected: int)
    requires
        forall|i: int| 0 <= i < declared.len() ==> 0 <= (#[trigger] declared[i]).from
            <= declared[i].to,
        -1 <= expected,
        !chain(declared, expected),
    ensures
        !fields_disjoint(normal_fields(declared, expected)) || touches_above(
            normal_fields(declared, expected),
            expected,
        ),
    decreases declared.len(),
{
    let fs = normal_fields(declared, expected);
    let f = declared[0];
    let pre: Seq<FieldModel> = if expected >= 0 && f.to != expected {
        seq![pad_model(f.to + 1, expected)]
    } else {
        Seq::<FieldModel>::empty()
    };
    let rest = declared.skip(1);
    let tail = normal_fields(rest, f.from - 1);
    assert(fs == pre + seq![f] + tail);
    assert(fs[pre.len() as int] == f);
    if f.to > expected {
        assert(touches_above(fs, expected));
    } else {
        assert(forall|i: int| 0 <= i < rest.len() ==> rest[i] == declared[i + 1]);
        lemma_unchained_overlaps(rest, f.from - 1);
        if !fields_disjoint(tail) {
            let (a, b) = choose|a: int, b: int|
                0 <= a < tail.len() && 0 <= b < tail.len() && a != b && #[trigger] fields_overlap(
                    tail[a],
                    tail[b],
                );
            assert(fs[pre.len() + 1 + a] == tail[a] && fs[pre.len() + 1 + b] == tail[b]);
            assert(!fields_disjoint(fs));
        } else {
            let g = choose|i: int|
                0 <= i < tail.len() && (#[trigger] tail[i]).from <= tail[i].to && tail[i].to > f.from
                    - 1;
            let gp = pre.len() + 1 + g;
            assert(fs[gp] == tail[g]);
            if tail[g].to <= f.to {
                assert(fields_overlap(fs[gp], fs[pre.len() as int]));
                assert(!fields_disjoint(fs));
            } else if tail[g].to <= expected {
                assert(f.to != expected && expected >= 0);
                assert(fs[0] == pad_model(f.to + 1, expected));
                assert(fields_overlap(fs[gp], fs[0]));
                assert(!fields_disjoint(fs));
            } else {
                assert(touches_above(fs, expected));
            }
        }
    }
}

/// The direct acceptance condition coincides with the validation rule run
/// on the normalized layout: bounds on every field, and — for widths the
/// bitmask can track — no bit claimed twice.
pub proof fn lemma_accepted_iff_valid(reg: RawRegModel)
    requires
        raw_wf(reg),
    ensures
        accepted(reg) <==> valid_layout(normal_model(reg)),
{
    let fs = normal_fields(reg.fields, reg.bits - 1);
    if accepted(reg) {
        lemma_normal_fields_bounded(reg.fields, reg.bits - 1, reg.bits);
        if reg.bits <= 64 {
            lemma_accepted_partition(reg);
        }
    }
    if valid_layout(normal_model(reg)) {
        assert forall|i: int| 0 <= i < reg.fields.len() implies (#[trigger] reg.fields[i]).to
            < reg.bits by {
            lemma_normal_contains_declared(reg.fields, reg.bits - 1, i);
            let p = choose|p: int| 0 <= p < fs.len() && #[trigger] fs[p] == reg.fields[i];
            assert(field_in_bounds(fs[p], reg.bits));
        }
        if reg.bits <= 64 {
            if !chain(reg.fields, reg.bits - 1) {
                lemma_unchained_overlaps(reg.fields, reg.bits - 1);
                if touches_above(fs, reg.bits - 1) {
                    let i = choose|i: int|
                        0 <= i < fs.len() && (#[trigger] fs[i]).from <= fs[i].to && fs[i].to
                            > reg.bits - 1;
                    assert(!field_in_bounds(fs[i], reg.bits));
                    assert(false);
                } else {
                    assert(false);
                }
            }
            lemma_chain_descending(reg.fields, reg.bits - 1);
        }
    }
}

/// The bit just below what the construction has covered after the first `k`
/// declared fields: the full width at the start, then one below the low bit
/// of the last declared field appended; `-1` once bit 0 has been reached.
spec fn exp_after(declared: Seq<FieldModel>, k: int, bits: int) -> int {
    if k == 0 {
        bits - 1
    } else {
        declared[k - 1].from - 1
    }
}

/// The rejection of a register whose declared fields violate the validation
/// rule: a bit beyond the width, or a claimed-twice bit on a register narrow
/// enough for the overlap check.
#[derive(Debug, PartialEq)]
pub struct ValidationFailure;

/// Builds the validated, gap-filled layout of one raw register, or rejects
/// it. Padding fields are synthesized so that the result tiles `[0, bits)`
/// exactly whenever the declared fields were in authored high-to-low order
/// (which the overlap check forces for widths up to 64).
#[verifier::rlimit(100)]
pub fn normalize(reg: &Register) -> (r: Result<RegisterDesc, ValidationFailure>)
    requires
        reg.wf(),
    ensures
        r is Ok <==> accepted(reg@),
        (r matches Ok(d) ==> d@ == normal_model(reg@)),
        (r matches Ok(d) ==> valid_layout(d@)),
        (r matches Ok(d) ==> ((reg@.bits <= 64 || declared_descending(reg@.fields))
            ==> covers_down(d@.fields, reg@.bits - 1))),
{
    let ghost dec = reg@.fields;
    let n = reg.bits_desc.len();
    proof {
        assert(dec.len() == n);
    }
    let mut k: usize = 0;
    while k < n
        invariant
            n == reg.bits_desc.len(),
            dec == reg@.fields,
            0 <= k <= n,
            forall|t: int| 0 <= t < k ==> (#[trigger] dec[t]).to < reg@.bits,
        decreases n - k,
    {
        proof {
            assert(dec[k as int] == reg.bits_desc@[k as int]@);
        }
        if reg.bits_desc[k].to >= reg.bits {
            return Err(ValidationFailure);
        }
        k = k + 1;
    }
    let mut fields: Vec<BitfieldDesc> = Vec::new();
    let mut expected: Option<u32> = Some(reg.bits - 1);
    proof {
        assert(dec.skip(0) =~= dec);
        assert(fields@.map_values(|f: BitfieldDesc| f@) =~= Seq::<FieldModel>::empty());
    }
    let mut idx: usize = 0;
    while idx < n
        invariant
            n == reg.bits_desc.len(),
            dec == reg@.fields,
            reg.wf(),
            0 <= idx <= n,
            forall|t: int| 0 <= t < n ==> (#[trigger] dec[t]).to < reg@.bits,
            (match expected {
                Some(x) => x as int == exp_after(dec, idx as int, reg@.bits),
                None => exp_after(dec, idx as int, reg@.bits) == -1,
            }),
            fields@.map_values(|f: BitfieldDesc| f@) + normal_fields(
                dec.skip(idx as int),
                exp_after(dec, idx as int, reg@.bits),
            ) == normal_fields(dec, reg@.bits - 1),
            reg@.bits <= 64 ==> forall|t: int|
                1 <= t < idx ==> (#[trigger] dec[t]).to < dec[t - 1].from,
        decreases n - idx,
    {
        let ghost e = exp_after(dec, idx as int, reg@.bits);
        let ghost fv0 = fields@.map_values(|f: BitfieldDesc| f@);
        let f = &reg.bits_desc[idx];
        proof {
            assert(f@ == dec[idx as int]);
        }
        if reg.bits <= 64 {
            match expected {
                None => {
                    proof {
                        assert(idx >= 1);
                        assert(dec[idx as int - 1].from == 0);
                        assert(dec[idx as int].to >= dec[idx as int - 1].from);
                        assert(!declared_descending(dec));
                    }
                    return Err(ValidationFailure);
                },
                Some(x) => {
                    if f.to > x {
                        proof {
                            if idx >= 1 {
                                assert(dec[idx as int].to >= dec[idx as int - 1].from);
                                assert(!declared_descending(dec));
                            }
                        }
                        return Err(ValidationFailure);
                    }
                },
            }
        }
        let ghost pre: Seq<FieldModel> = if e >= 0 && dec[idx as int].to != e {
            seq![pad_model(dec[idx as int].to + 1, e)]
        } else {
            Seq::<FieldModel>::empty()
        };
        if let Some(x) = expected {
            if x != f.to {
                fields.push(BitfieldDesc { from: f.to + 1, to: x, name: String::new() });
                proof {
                    assert(fields@.map_values(|f: BitfieldDesc| f@) =~= fv0 + pre);
                }
            }
        }
        fields.push(BitfieldDesc { from: f.from, to: f.to, name: f.name.clone() });
        expected = if f.from == 0 {
            None
        } else {
            Some(f.from - 1)
        };
        proof {
            let fd = dec[idx as int];
            assert(fields@.map_values(|f: BitfieldDesc| f@) =~= fv0 + pre + seq![fd]);
            let sk = dec.skip(idx as int);
            assert(sk[0] == fd);
            assert(sk.skip(1) =~= dec.skip(idx as int + 1));
            assert(normal_fields(sk, e) == pre + seq![fd] + normal_fields(
                dec.skip(idx as int + 1),
                fd.from - 1,
            ));
            assert(exp_after(dec, idx as int + 1, reg@.bits) == fd.from - 1);
            assert(fv0 + pre + seq![fd] + normal_fields(dec.skip(idx as int + 1), fd.from - 1)
                =~= fv0 + (pre + seq![fd] + normal_fields(
                dec.skip(idx as int + 1),
                fd.from - 1,
            )));
        }
        idx = idx + 1;
    }
    let ghost e = exp_after(dec, n as int, reg@.bits);
    let ghost fv0 = fields@.map_values(|f: BitfieldDesc| f@);
    proof {
        assert(dec.skip(n as int) =~= Seq::<FieldModel>::empty());
    }
    if let Some(x) = expected {
        fields.push(BitfieldDesc { from: 0, to: x, name: String::new() });
        proof {
            assert(normal_fields(dec.skip(n as int), e) == seq![pad_model(0, e)]);
            assert(fields@.map_values(|f: BitfieldDesc| f@) =~= fv0 + seq![pad_model(0, e)]);
        }
    } else {
        proof {
            assert(normal_fields(dec.skip(n as int), e) =~= Seq::<FieldModel>::empty());
            assert(fields@.map_values(|f: BitfieldDesc| f@) =~= fv0);
        }
    }
    let d = RegisterDesc { name: reg.name.clone(), bits: reg.bits, fields, value: None };
    proof {
        assert(d@.fields == normal_fields(dec, reg@.bits - 1));
        assert(accepted(reg@));
        assert(d@ =~= normal_model(reg@));
        lemma_accepted_iff_valid(reg@);
        if reg@.bits <= 64 || declared_descending(dec) {
            if dec.len() > 0 {
                assert(dec[0].to <= reg@.bits - 1);
            }
            lemma_descending_chain(dec, reg@.bits - 1);
            lemma_chain_covers(dec, reg@.bits - 1);
        }
    }
    Ok(d)
}

/// True when bit `b` of the mask `m` is set.
pub open spec fn mask_bit(m: u64, b: u64) -> bool {
    m & (1u64 << b) != 0
}

/// True when some field among the first `n` of `fs` contains bit `b`.
pub open spec fn covered_upto(fs: Seq<FieldModel>, n: int, b: int) -> bool {
    exists|k: int| 0 <= k < n && field_contains(#[trigger] fs[k], b)
}

/// Setting bit `i` of a mask sets exactly that bit and keeps the others.
proof fn lemma_mask_set_bit(m: u64, i: u64, j: u64)
    requires
        i < 64,
        j < 64,
    ensures
        mask_bit(m | (1u64 << i), j) <==> (mask_bit(m, j) || i == j),
{
    assert(((m | (1u64 << i)) & (1u64 << j) != 0) <==> ((m & (1u64 << j) != 0) || i == j))
        by (bit_vector)
        requires
            i < 64,
            j < 64,
    ;
}

/// The empty mask has no bit set.
proof fn lemma_mask_empty(j: u64)
    requires
        j < 64,
    ensures
        !mask_bit(0u64, j),
{
    assert(0u64 & (1u64 << j) == 0) by (bit_vector);
}

impl RegisterDesc {
    /// Checks the validation rule on this register: every bit of every field
    /// must lie below the register width, and for widths of at most 64 a
    /// bitmask over all fields must find no bit claimed twice.
    pub fn is_valid(&self) -> (r: bool)
        ensures
            r == valid_layout(self@),
    {
        let mut bit_mask: u64 = 0;
        proof {
            assert forall|b: u64| b < 64 implies !mask_bit(0u64, b) by {
                lemma_mask_empty(b);
            }
        }
        let nf = self.fields.len();
        let mut i: usize = 0;
        while i < nf
            invariant
                0 <= i <= nf,
                nf == self.fields.len(),
                forall|k: int| 0 <= k < i ==> field_in_bounds(#[trigger] self@.fields[k], self@.bits),
                self@.bits <= 64 ==> forall|k: int, l: int|
                    0 <= k < i && 0 <= l < i && k != l ==> !#[trigger] fields_overlap(
                        self@.fields[k],
                        self@.fields[l],
                    ),
                self@.bits <= 64 ==> forall|b: u64|
                    b < 64 ==> (#[trigger] mask_bit(bit_mask, b) <==> covered_upto(
                        self@.fields,
                        i as int,
                        b as int,
                    )),
            decreases nf - i,
        {
            let field = &self.fields[i];
            if field.from <= field.to {
                let mut bit: u32 = field.from;
                while bit <= field.to
                    invariant
                        0 <= i < nf,
                        nf == self.fields.len(),
                        field == self.fields[i as int],
                        field.from <= field.to,
                        field.from <= bit,
                        bit <= field.to + 1,
                        bit > field.from ==> bit - 1 < self@.bits,
                        forall|k: int|
                            0 <= k < i ==> field_in_bounds(#[trigger] self@.fields[k], self@.bits),
                        self@.bits <= 64 ==> forall|k: int, l: int|
                            0 <= k < i && 0 <= l < i && k != l ==> !#[trigger] fields_overlap(
                                self@.fields[k],
                                self@.fields[l],
                            ),
                        self@.bits <= 64 ==> forall|b: u64|
                            b < 64 ==> (#[trigger] mask_bit(bit_mask, b) <==> covered_upto(
                                self@.fields,
                                i as int,
                                b as int,
                            ) || field.from <= b < bit),
                        self@.bits <= 64 ==> forall|b: int|
                            field.from <= b < bit ==> !covered_upto(self@.fields, i as int, b),
                    decreases field.to + 1 - bit,
                {
                    if bit >= self.bits {
                        proof {
                            assert(field_contains(self@.fields[i as int], bit as int));
                            assert(!field_in_bounds(self@.fields[i as int], self@.bits));
                        }
                        return false;
                    }
                    if self.bits <= 64 {
                        let b64: u64 = bit as u64;
                        let probe: u64 = 1u64 << b64;
                        let ghost m0 = bit_mask;
                        if bit_mask & probe != 0 {
                            proof {
                                assert(mask_bit(bit_mask, b64));
                                assert(covered_upto(self@.fields, i as int, bit as int));
                                let k = choose|k: int|
                                    0 <= k < i && field_contains(self@.fields[k], bit as int);
                                lemma_overlap_iff_common_bit(
                                    self@.fields[k],
                                    self@.fields[i as int],
                                    bit as int,
                                );
                                assert(!fields_disjoint(self@.fields));
                            }
                            return false;
                        }
                        proof {
                            assert(!mask_bit(m0, b64));
                            assert(!covered_upto(self@.fields, i as int, bit as int));
                        }
                        bit_mask = bit_mask | probe;
                        proof {
                            assert forall|b: u64| b < 64 implies (#[trigger] mask_bit(bit_mask, b)
                                <==> covered_upto(self@.fields, i as int, b as int) || field.from
                                <= b < bit + 1) by {
                                lemma_mask_set_bit(m0, b64, b);
                            }
                        }
                    }
                    bit = bit + 1;
                }
                proof {
                    assert(bit == field.to + 1);
                    assert(field_in_bounds(self@.fields[i as int], self@.bits));
                    if self@.bits <= 64 {
                        assert forall|k: int, l: int|
                            0 <= k < i + 1 && 0 <= l < i + 1 && k != l implies !#[trigger] fields_overlap(
                            self@.fields[k],
                            self@.fields[l],
                        ) by {
                            if k == i || l == i {
                                let (other, cur) = if k == i {
                                    (l, k)
                                } else {
                                    (k, l)
                                };
                                if fields_overlap(self@.fields[k], self@.fields[l]) {
                                    let f = self@.fields[i as int];
                                    let g = self@.fields[other];
                                    assert(fields_overlap(f, g));
                                    let b = if f.from >= g.from {
                                        f.from
                                    } else {
                                        g.from
                                    };
                                    assert(field_contains(f, b) && field_contains(g, b));
                                    assert(covered_upto(self@.fields, i as int, b));
                                }
                            }
                        }
                        assert forall|b: u64| b < 64 implies (#[trigger] mask_bit(bit_mask, b)
                            <==> covered_upto(self@.fields, i as int + 1, b as int)) by {
                            if covered_upto(self@.fields, i as int + 1, b as int)
                                && !covered_upto(self@.fields, i as int, b as int) {
                                assert(field_contains(self@.fields[i as int], b as int));
                            }
                            if field.from <= b < bit {
                                assert(field_contains(self@.fields[i as int], b as int));
                            }
                        }
                    }
                }
            } else {
                proof {
                    assert(field_in_bounds(self@.fields[i as int], self@.bits));
                    if self@.bits <= 64 {
                        assert forall|b: u64| b < 64 implies (#[trigger] mask_bit(bit_mask, b)
                            <==> covered_upto(self@.fields, i as int + 1, b as int)) by {
                            if covered_upto(self@.fields, i as int + 1, b as int)
                                && !covered_upto(self@.fields, i as int, b as int) {
                                assert(field_contains(self@.fields[i as int], b as int));
                            }
                        }
                        assert forall|k: int, l: int|
                            0 <= k < i + 1 && 0 <= l < i + 1 && k != l implies !#[trigger] fields_overlap(
                            self@.fields[k],
                            self@.fields[l],
                        ) by {
                            if k == i || l == i {
                                let other = if k == i {
                                    l
                                } else {
                                    k
                                };
                                assert(!fields_overlap(
                                    self@.fields[i as int],
                                    self@.fields[other],
                                ));
                            }
                        }
                    }
                }
            }
            i = i + 1;
        }
        true
    }

    /// An elementwise copy of this register whose mathematical value is the
    /// same as the original's.
    pub fn duplicate(&self) -> (r: RegisterDesc)
        ensures
            r@ == self@,
    {
        let mut fields: Vec<BitfieldDesc> = Vec::new();
        let mut i: usize = 0;
        while i < self.fields.len()
            invariant
                0 <= i <= self.fields.len(),
                fields@.len() == i,
                forall|k: int| 0 <= k < i ==> fields@[k]@ == #[trigger] self.fields@[k]@,
            decreases self.fields.len() - i,
        {
            fields.push(self.fields[i].duplicate());
            i = i + 1;
        }
        let r = RegisterDesc {
            name: self.name.clone(),
            bits: self.bits,
            fields,
            value: self.value,
        };
        proof {
            assert(r@.fields =~= self@.fields);
            assert(r@ =~= self@);
        }
        r
    }
}

impl BitfieldDesc {
    /// A copy of this field whose mathematical value is the original's.
    pub fn duplicate(&self) -> (r: BitfieldDesc)
        ensures
            r@ == self@,
    {
        BitfieldDesc { from: self.from, to: self.to, name: self.name.clone() }
    }
}

} // verus!
