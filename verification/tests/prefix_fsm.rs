use mra_parser::prefix_fsm::{Event, Fsm, Item, TState};

#[derive(Clone, PartialEq)]
struct Elem(String, Option<u64>);

impl Elem {
    fn new(s: &str) -> Elem {
        Elem(String::from(s), None)
    }
}

impl Item for Elem {
    // the specification-level description of `update`; never run
    fn updated(self, _: u64) -> Self {
        self
    }

    fn update(&mut self, x: u64) {
        self.1 = Some(x);
    }
}

fn make_text(s: &str) -> Event {
    Event::Text(String::from(s))
}

fn assert_selected(state: &TState<Elem>, s: &str) {
    assert!(matches!(state, TState::Selected(Elem(_, None))));
    if let TState::Selected(Elem(x, None)) = state {
        assert_eq!(x, s)
    }
}

fn assert_selected_num(state: &TState<Elem>, s: &str, num: u64) {
    assert!(matches!(state, TState::Selected(Elem(_, Some(_)))));
    if let TState::Selected(Elem(name, Some(value))) = state {
        assert_eq!(name, s);
        assert_eq!(value.to_owned(), num);
    }
}

fn assert_empty(state: &TState<Elem>) {
    assert!(matches!(state, TState::Empty));
}

fn assert_ambiguous(state: &TState<Elem>, data: &Vec<&str>, prefix: &str) {
    assert!(matches!(state, TState::Ambiguous(_, _)));
    if let TState::Ambiguous(s, v) = state {
        assert_eq!(s, prefix);
        for x in data {
            if x.starts_with(prefix) {
                let el = Elem::new(x);
                assert!(v.contains(&el));
            } else {
                let el = Elem::new(x);
                assert!(!v.contains(&el));
            }
        }
    }
}

#[test]
fn test_fsm() {
    let data = vec!["Single", "Multiple1", "Multiple2"];
    let fsm_create = || {
        Fsm::new(|prefix: &str| -> Vec<Elem> {
            let mut v = Vec::new();

            for x in &data {
                if x.starts_with(prefix) {
                    v.push(Elem::new(x));
                }
            }

            v
        })
    };

    /*
     * Empty
     */
    let mut fsm = fsm_create();
    assert!(matches!(fsm.state, TState::Empty));

    /*
     * Empty ---|Number|--> Empty
     */
    fsm.next(Event::Number(1));
    assert_empty(&fsm.state);

    /*
     * Empty ---|Text(miss)|--> Empty
     */
    fsm.next(make_text("None"));
    assert_empty(&fsm.state);

    /*
     * Empty ---|Text(match)|--> Selected
     */
    fsm.next(make_text("Si"));
    assert_selected(&fsm.state, "Single");

    /*
     * Selected ---|Number|--> Selected
     */
    fsm.next(Event::Number(42));
    assert_selected_num(&fsm.state, "Single", 42);

    /*
     * Selected ---|Number|--> Selected
     */
    fsm.next(Event::Number(43));
    assert_selected_num(&fsm.state, "Single", 43);

    /*
     * Selected ---|Text(match)|--> Selected
     */
    fsm.next(make_text("Si"));
    assert_selected(&fsm.state, "Single");

    /*
     * Selected ---|Text(miss)|--> Empty
     */
    fsm.next(make_text("non-existent"));
    assert_empty(&fsm.state);

    /*
     * Empty ---|Text(amb.)|--> Multiple
     */
    fsm.next(make_text("Mult"));
    assert_ambiguous(&fsm.state, &data, "Mult");

    /*
     * Ambiguous ---|Text|--> Ambiguous
     */
    fsm.next(make_text("Single"));
    assert_ambiguous(&fsm.state, &data, "Mult");

    /*
     * Ambiguous ---|Number (not matching)|--> Ambiguous
     */
    fsm.next(Event::Number(2));
    assert_ambiguous(&fsm.state, &data, "Mult");

    /*
     * Ambiguous ---|Number|--> Selected
     */
    fsm.next(Event::Number(1));
    assert_selected(&fsm.state, "Multiple2");
}

#[test]
fn test_event() {
    let e = Event::from_str("1");
    assert_eq!(e, Event::Number(1));

    let e = Event::from_str("0x1");
    assert_eq!(e, Event::Number(1));
}

#[test]
fn event_classification_edges() {
    assert_eq!(Event::from_str("  42  "), Event::Number(42));
    assert_eq!(Event::from_str("+42"), Event::Number(42));
    assert_eq!(Event::from_str("0XFF"), Event::Number(255));
    assert_eq!(Event::from_str("0x"), Event::Text(String::from("0x")));
    assert_eq!(
        Event::from_str("18446744073709551615"),
        Event::Number(u64::MAX)
    );
    assert_eq!(
        Event::from_str("18446744073709551616"),
        Event::Text(String::from("18446744073709551616"))
    );
    assert_eq!(Event::from_str("0xdeadBEEF"), Event::Number(0xdeadbeef));
    assert_eq!(Event::from_str("SCTLR"), Event::Text(String::from("sctlr")));
    assert_eq!(Event::from_str("12abc"), Event::Text(String::from("12abc")));
}

#[test]
fn resolve_rule_cases() {
    let data = vec!["one", "two", "twin"];
    let mut fsm = Fsm::new(|prefix: &str| -> Vec<Elem> {
        let mut v = Vec::new();
        for x in &data {
            if x.starts_with(prefix) {
                v.push(Elem::new(x));
            }
        }
        v
    });

    // no candidate: Empty
    fsm.next(make_text("zzz"));
    assert_empty(&fsm.state);

    // one candidate: Selected
    fsm.next(make_text("on"));
    assert_selected(&fsm.state, "one");

    // two candidates: Ambiguous, provider order preserved
    fsm.next(make_text("tw"));
    match &fsm.state {
        TState::Ambiguous(p, v) => {
            assert_eq!(p, "tw");
            assert_eq!(v.len(), 2);
            assert!(v[0] == Elem::new("two"));
            assert!(v[1] == Elem::new("twin"));
        }
        _ => panic!("expected an ambiguous state"),
    }
}

#[test]
fn engine_determinism_replay() {
    let data = vec!["alpha", "beta", "bet"];
    let run = || {
        let mut fsm = Fsm::new(|prefix: &str| -> Vec<Elem> {
            let mut v = Vec::new();
            for x in &data {
                if x.starts_with(prefix) {
                    v.push(Elem::new(x));
                }
            }
            v
        });
        let events = vec![
            make_text("be"),
            Event::Number(9),
            Event::Number(1),
            Event::Number(7),
        ];
        for e in events {
            fsm.next(e);
        }
        match fsm.state {
            TState::Selected(el) => el,
            _ => panic!("expected a selection"),
        }
    };
    let a = run();
    let b = run();
    assert!(a == b);
    assert_eq!(a.0, "bet");
    assert_eq!(a.1, Some(7));
}
