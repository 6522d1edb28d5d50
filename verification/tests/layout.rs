use mra_parser::ast::{Bitfield, Register, Statement};
use mra_parser::catalog::build_catalog;
use mra_parser::{normalize, BitfieldDesc, RegisterDesc};

fn reg(bits: u32, name: &str, fields: Vec<(u32, u32, &str)>) -> Register {
    Register {
        bits,
        name: String::from(name),
        bits_desc: fields
            .into_iter()
            .map(|(to, from, n)| Bitfield {
                to,
                from,
                name: String::from(n),
            })
            .collect(),
        array: None,
    }
}

fn field_triple(f: &BitfieldDesc) -> (u32, u32, String) {
    (f.to, f.from, f.name.clone())
}

#[test]
fn normalize_fills_gaps() {
    // declared [(31,31,"OneBit"), (15,0,"SomeBits")] on 32 bits
    let r = reg(32, "some_reg", vec![(31, 31, "OneBit"), (15, 0, "SomeBits")]);
    let d = normalize(&r).expect("a well-ordered register is accepted");
    let got: Vec<_> = d.fields.iter().map(field_triple).collect();
    assert_eq!(
        got,
        vec![
            (31, 31, String::from("OneBit")),
            (30, 16, String::new()),
            (15, 0, String::from("SomeBits")),
        ]
    );
    assert_eq!(d.name, "some_reg");
    assert_eq!(d.bits, 32);
    assert_eq!(d.value, None);
}

#[test]
fn normalize_empty_declaration() {
    // no declared fields on 32 bits: one padding field covers everything
    let r = reg(32, "empty", vec![]);
    let d = normalize(&r).expect("an empty declaration is accepted");
    let got: Vec<_> = d.fields.iter().map(field_triple).collect();
    assert_eq!(got, vec![(31, 0, String::new())]);
}

#[test]
fn normalize_rejects_out_of_bounds() {
    // a declared bit at 40 does not fit a 32-bit register
    let r = reg(32, "bad", vec![(40, 40, "X")]);
    assert!(normalize(&r).is_err());

    let statements = vec![Statement::Register(reg(32, "bad", vec![(40, 40, "X")]))];
    let (cat, skipped) = build_catalog(&statements);
    assert_eq!(skipped, 1);
    assert!(cat.lookup_exact("bad").is_none());
    assert_eq!(cat.entries.len(), 0);
}

#[test]
fn normalize_rejects_overlap() {
    let r = reg(32, "overlap", vec![(31, 16, "Hi"), (20, 0, "Lo")]);
    assert!(normalize(&r).is_err());

    // rejection increments the skip counter exactly once per register
    let statements = vec![
        Statement::Register(reg(32, "overlap", vec![(31, 16, "Hi"), (20, 0, "Lo")])),
        Statement::Register(reg(32, "fine", vec![(31, 16, "Hi"), (15, 0, "Lo")])),
        Statement::Comment,
    ];
    let (cat, skipped) = build_catalog(&statements);
    assert_eq!(skipped, 1);
    assert!(cat.lookup_exact("fine").is_some());
    assert!(cat.lookup_exact("overlap").is_none());
}

#[test]
fn wide_registers_skip_overlap_check() {
    // beyond 64 bits the bitmask cannot track bits: overlap passes,
    // but the bounds check still applies
    let r = reg(128, "wide", vec![(100, 50, "A"), (60, 0, "B")]);
    assert!(normalize(&r).is_ok());

    let r = reg(128, "wide_bad", vec![(130, 50, "A")]);
    assert!(normalize(&r).is_err());

    // at exactly 64 bits the overlap check still runs
    let r = reg(64, "at64", vec![(63, 32, "A"), (40, 0, "B")]);
    assert!(normalize(&r).is_err());
    let r = reg(64, "at64ok", vec![(63, 32, "A"), (31, 0, "B")]);
    assert!(normalize(&r).is_ok());
}

#[test]
fn normalized_fields_partition_register() {
    // coverage: the normalized fields tile [0, bits) with no gap or overlap,
    // strictly descending
    let r = reg(
        32,
        "cover",
        vec![(27, 20, "A"), (19, 19, ""), (10, 3, "B")],
    );
    let d = normalize(&r).expect("accepted");
    let mut next_high: i64 = 31;
    for f in &d.fields {
        assert_eq!(f.to as i64, next_high);
        assert!(f.from <= f.to);
        next_high = f.from as i64 - 1;
    }
    assert_eq!(next_high, -1);
}

#[test]
fn is_valid_checks_bounds_and_overlap() {
    let mk = |bits: u32, fields: Vec<(u32, u32)>| RegisterDesc {
        name: String::from("r"),
        bits,
        fields: fields
            .into_iter()
            .map(|(to, from)| BitfieldDesc {
                to,
                from,
                name: String::new(),
            })
            .collect(),
        value: None,
    };
    assert!(mk(32, vec![(31, 16), (15, 0)]).is_valid());
    assert!(!mk(32, vec![(32, 0)]).is_valid());
    assert!(!mk(32, vec![(31, 16), (16, 0)]).is_valid());
    assert!(mk(8, vec![(7, 7), (6, 0)]).is_valid());
    assert!(!mk(8, vec![(7, 7), (7, 0)]).is_valid());
    // a register with no fields at all breaks no rule
    assert!(mk(8, vec![]).is_valid());
}

#[test]
fn one_bit_register() {
    let r = reg(1, "tiny", vec![]);
    let d = normalize(&r).expect("accepted");
    let got: Vec<_> = d.fields.iter().map(field_triple).collect();
    assert_eq!(got, vec![(0, 0, String::new())]);

    let r = reg(1, "tiny_named", vec![(0, 0, "Bit")]);
    let d = normalize(&r).expect("accepted");
    let got: Vec<_> = d.fields.iter().map(field_triple).collect();
    assert_eq!(got, vec![(0, 0, String::from("Bit"))]);
}

#[test]
fn is_valid_on_wide_registers() {
    let mk = |bits: u32, fields: Vec<(u32, u32)>| RegisterDesc {
        name: String::from("w"),
        bits,
        fields: fields
            .into_iter()
            .map(|(to, from)| BitfieldDesc {
                to,
                from,
                name: String::new(),
            })
            .collect(),
        value: None,
    };
    // beyond 64 bits overlaps pass, bounds still apply
    assert!(mk(128, vec![(127, 0), (100, 50)]).is_valid());
    assert!(!mk(128, vec![(128, 0)]).is_valid());
}

#[test]
fn last_writer_wins_on_duplicate_names() {
    let statements = vec![
        Statement::Register(reg(32, "dup", vec![])),
        Statement::Register(reg(16, "DUP", vec![])),
    ];
    let (cat, skipped) = build_catalog(&statements);
    assert_eq!(skipped, 0);
    assert_eq!(cat.entries.len(), 1);
    let d = cat.lookup_exact("dup").expect("present");
    assert_eq!(d.bits, 16);
}
