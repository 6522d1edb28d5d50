use mra_parser::ast::{Register, Statement};
use mra_parser::catalog::{build_catalog, Catalog};
use mra_parser::prefix_fsm::{Event, Fsm, TState};
use mra_parser::RegisterDesc;

fn plain_reg(bits: u32, name: &str) -> Register {
    Register {
        bits,
        name: String::from(name),
        bits_desc: Vec::new(),
        array: None,
    }
}

fn sctlr_catalog() -> Catalog {
    let statements = vec![
        Statement::Register(plain_reg(32, "sctlr_el2")),
        Statement::Register(plain_reg(32, "sctlr_el1")),
        Statement::Register(plain_reg(32, "ttbr0_el1")),
    ];
    let (cat, skipped) = build_catalog(&statements);
    assert_eq!(skipped, 0);
    cat
}

#[test]
fn prefix_narrowing_selects_by_index() {
    // Text("sctlr") leaves both candidates, in lexicographic order;
    // Number(1) picks the second
    let cat = sctlr_catalog();
    let mut fsm = Fsm::new(|prefix: &str| -> Vec<RegisterDesc> { cat.query_prefix(prefix) });

    fsm.next(Event::from_str("sctlr"));
    match &fsm.state {
        TState::Ambiguous(p, v) => {
            assert_eq!(p, "sctlr");
            assert_eq!(v.len(), 2);
            assert_eq!(v[0].name, "sctlr_el1");
            assert_eq!(v[0].bits, 32);
            assert_eq!(v[1].name, "sctlr_el2");
        }
        _ => panic!("expected an ambiguous state"),
    }

    fsm.next(Event::Number(1));
    match &fsm.state {
        TState::Selected(d) => {
            assert_eq!(d.name, "sctlr_el2");
            assert_eq!(d.value, None);
        }
        _ => panic!("expected a selection"),
    }
}

#[test]
fn refinement_keeps_identity() {
    // from a selection, Number(5) attaches the decode value 5 and keeps
    // the same register
    let cat = sctlr_catalog();
    let mut fsm = Fsm::new(|prefix: &str| -> Vec<RegisterDesc> { cat.query_prefix(prefix) });

    fsm.next(Event::from_str("sctlr_el2"));
    assert!(matches!(&fsm.state, TState::Selected(_)));

    fsm.next(Event::Number(5));
    match &fsm.state {
        TState::Selected(d) => {
            assert_eq!(d.name, "sctlr_el2");
            assert_eq!(d.bits, 32);
            assert_eq!(d.value, Some(5));
        }
        _ => panic!("expected a selection"),
    }
}

#[test]
fn lookup_is_case_insensitive() {
    // names are folded on insertion and on lookup
    let statements = vec![Statement::Register(plain_reg(32, "SCTLR_EL1"))];
    let (cat, _) = build_catalog(&statements);
    let d = cat.lookup_exact("sctlr_el1").expect("folded key found");
    assert_eq!(d.name, "SCTLR_EL1");
    let d = cat.lookup_exact("Sctlr_El1").expect("folded query found");
    assert_eq!(d.name, "SCTLR_EL1");
    assert!(cat.lookup_exact("sctlr_el2").is_none());
}

#[test]
fn lookup_agrees_with_single_prefix_match() {
    // when a prefix query for a full name finds exactly one candidate,
    // the exact lookup names the same register
    let cat = sctlr_catalog();
    let v = cat.query_prefix("ttbr0_el1");
    assert_eq!(v.len(), 1);
    let d = cat.lookup_exact("ttbr0_el1").expect("present");
    assert_eq!(v[0].name, d.name);
    assert_eq!(v[0].bits, d.bits);
}

#[test]
fn query_prefix_misses_and_order() {
    let cat = sctlr_catalog();
    assert_eq!(cat.query_prefix("zzz").len(), 0);
    let all = cat.query_prefix("");
    assert_eq!(all.len(), 3);
    assert_eq!(all[0].name, "sctlr_el1");
    assert_eq!(all[1].name, "sctlr_el2");
    assert_eq!(all[2].name, "ttbr0_el1");
}
