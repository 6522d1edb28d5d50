//! The generic prefix-disambiguation engine: a state machine that narrows a
//! named-item roster down to one selection, driven by text prefixes,
//! disambiguating indices, and refinement values.

use vstd::prelude::*;

use crate::text::{classify_number, fold_lower, lower_of, parse_u64_radix, trim_of, trim_ws};
use crate::RegisterDesc;

verus! {

/// One classified line of user input: a name prefix, or a number.
#[derive(PartialEq, Debug)]
pub enum Event {
    Text(String),
    Number(u64),
}

/// The mathematical value of an event.
pub enum EventModel {
    Text(Seq<char>),
    Number(u64),
}

impl Event {
    /// The mathematical value of this event.
    pub open spec fn model(self) -> EventModel {
        match self {
            Event::Text(s) => EventModel::Text(s@),
            Event::Number(n) => EventModel::Number(n),
        }
    }

    /// Classifies one input line: after trimming and case folding, a
    /// leading `0x` makes it a hexadecimal number, else a decimal number,
    /// and what parses as neither is a text prefix.
    pub fn from_str(input: &str) -> (r: Event)
        ensures
            ({
                let c = lower_of(trim_of(input@));
                match r {
                    Event::Number(n) => classify_number(c) == Some(n),
                    Event::Text(s) => s@ == c && classify_number(c) is None,
                }
            }),
    {
        let t = trim_ws(input);
        let low = fold_lower(t);
        let n = low.as_str().unicode_len();
        if n >= 2 && low.as_str().get_char(0) == '0' && low.as_str().get_char(1) == 'x' {
            let sub = low.as_str().substring_char(2, n);
            proof {
                assert(sub@ =~= low@.skip(2));
            }
            if let Some(num) = parse_u64_radix(sub, 16) {
                return Event::Number(num);
            }
        }
        match parse_u64_radix(low.as_str(), 10) {
            Some(num) => Event::Number(num),
            None => Event::Text(low),
        }
    }
}

/// An item that a roster can offer: a value that can carry a numeric
/// refinement without changing its identity.
pub trait Item: Sized {
    /// The item with the refinement value `x` attached.
    spec fn updated(self, x: u64) -> Self;

    /// Attaches the refinement value `x` to this item.
    fn update(&mut self, x: u64)
        ensures
            *final(self) == old(self).updated(x),
    ;
}

impl Item for RegisterDesc {
    /// Attaching a decode value keeps name, width and fields.
    open spec fn updated(self, x: u64) -> RegisterDesc {
        RegisterDesc { value: Some(x), ..self }
    }

    fn update(&mut self, x: u64) {
        self.value = Some(x);
    }
}

/// The engine's state: nothing chosen yet, several candidates pending an
/// index, or one item selected.
pub enum TState<T> {
    Empty,
    Ambiguous(String, Vec<T>),
    Selected(T),
}

/// The mathematical value of an engine state.
pub enum StateModel<T> {
    Empty,
    Ambiguous(Seq<char>, Seq<T>),
    Selected(T),
}

impl<T> TState<T> {
    /// The mathematical value of this state.
    pub open spec fn model(self) -> StateModel<T> {
        match self {
            TState::Empty => StateModel::Empty,
            TState::Ambiguous(p, v) => StateModel::Ambiguous(p@, v@),
            TState::Selected(x) => StateModel::Selected(x),
        }
    }
}

/// What a candidate list resolves to: no candidate ends empty, a single
/// candidate is selected at once, and two or more stay pending with their
/// order preserved.
pub open spec fn resolve_model<T>(cands: Seq<T>, prefix: Seq<char>) -> StateModel<T> {
    if cands.len() == 0 {
        StateModel::Empty
    } else if cands.len() == 1 {
        StateModel::Selected(cands[0])
    } else {
        StateModel::Ambiguous(prefix, cands)
    }
}

/// The engine's transition table as a function of the current state, the
/// event, and the candidate list a text prefix retrieved: numbers select by
/// index or refine a selection, text resolves a fresh candidate list, and
/// while ambiguous only an in-range index moves the machine.
pub open spec fn step<T: Item>(m: StateModel<T>, e: EventModel, cands: Seq<T>) -> StateModel<T> {
    match (m, e) {
        (StateModel::Empty, EventModel::Number(_)) => StateModel::Empty,
        (StateModel::Empty, EventModel::Text(p)) => resolve_model(cands, p),
        (StateModel::Ambiguous(pfx, cs), EventModel::Number(x)) => if (x as int) < cs.len() {
            StateModel::Selected(cs[x as int])
        } else {
            StateModel::Ambiguous(pfx, cs)
        },
        (StateModel::Ambiguous(pfx, cs), EventModel::Text(_)) => StateModel::Ambiguous(pfx, cs),
        (StateModel::Selected(it), EventModel::Number(x)) => StateModel::Selected(it.updated(x)),
        (StateModel::Selected(_), EventModel::Text(p)) => resolve_model(cands, p),
    }
}

/// How one engine transition relates the states before and after: for a
/// number the table alone decides; for text while ambiguous the state is
/// kept; otherwise the provider was consulted and some list it may return
/// was resolved.
pub open spec fn next_rel<T: Item, F: Fn(&str) -> Vec<T>>(
    f: F,
    m0: StateModel<T>,
    e: EventModel,
    m1: StateModel<T>,
) -> bool {
    match e {
        EventModel::Number(_) => m1 == step(m0, e, Seq::<T>::empty()),
        EventModel::Text(p) => match m0 {
            StateModel::Ambiguous(_, _) => m1 == step(m0, e, Seq::<T>::empty()),
            _ => exists|s: &str, v: Vec<T>|
                s@ == p && #[trigger] call_ensures(f, (s,), v) && m1 == step(m0, e, v@),
        },
    }
}

/// The disambiguation engine: the live state and the candidate provider
/// that text prefixes consult.
#[verifier::reject_recursive_types(T)]
pub struct Fsm<T, F> where F: Fn(&str) -> Vec<T> {
    pub state: TState<T>,
    pub from_prefix: F,
}

impl<T: Item, F: Fn(&str) -> Vec<T>> Fsm<T, F> {
    /// Resolves a candidate list: none ends empty, one is selected, more
    /// stay ambiguous under the prefix that found them, order preserved.
    pub fn vec_to_state(prefix: &str, v: Vec<T>) -> (r: TState<T>)
        ensures
            r.model() == resolve_model(v@, prefix@),
    {
        let mut v = v;
        if v.len() == 0 {
            TState::Empty
        } else if v.len() == 1 {
            let x = v.remove(0);
            TState::Selected(x)
        } else {
            TState::Ambiguous(prefix.to_owned(), v)
        }
    }

    /// Performs one transition of the engine's table on the given event.
    pub fn next(&mut self, event: Event)
        requires
            forall|s: &str| call_requires(old(self).from_prefix, (s,)),
        ensures
            final(self).from_prefix == old(self).from_prefix,
            next_rel(
                old(self).from_prefix,
                old(self).state.model(),
                event.model(),
                final(self).state.model(),
            ),
    {
        let mut cur = TState::Empty;
        core::mem::swap(&mut cur, &mut self.state);
        match (cur, event) {
            (TState::Empty, Event::Number(_)) => {},
            (TState::Empty, Event::Text(s)) => {
                let v = (self.from_prefix)(s.as_str());
                self.state = Self::vec_to_state(s.as_str(), v);
            },
            (TState::Ambiguous(pfx, cands), ev) => match ev {
                Event::Number(x) => {
                    let mut cands = cands;
                    if x < cands.len() as u64 {
                        let it = cands.remove(x as usize);
                        self.state = TState::Selected(it);
                    } else {
                        self.state = TState::Ambiguous(pfx, cands);
                    }
                },
                Event::Text(_) => {
                    self.state = TState::Ambiguous(pfx, cands);
                },
            },
            (TState::Selected(item), Event::Number(x)) => {
                let mut item = item;
                item.update(x);
                self.state = TState::Selected(item);
            },
            (TState::Selected(_), Event::Text(s)) => {
                let v = (self.from_prefix)(s.as_str());
                self.state = Self::vec_to_state(s.as_str(), v);
            },
        }
    }

    /// A fresh engine over the given candidate provider, with nothing
    /// chosen yet.
    pub fn new(f: F) -> (r: Fsm<T, F>)
        ensures
            r.state.model() == StateModel::<T>::Empty,
            r.from_prefix == f,
    {
        Fsm { state: TState::Empty, from_prefix: f }
    }
}

/// One transition under a fixed candidate provider, recorded as a map from
/// prefix to candidate list.
pub open spec fn provider_step<T: Item>(
    m: StateModel<T>,
    e: EventModel,
    provider: Map<Seq<char>, Seq<T>>,
) -> StateModel<T> {
    match e {
        EventModel::Text(p) => step(m, e, provider[p]),
        EventModel::Number(_) => step(m, e, Seq::<T>::empty()),
    }
}

/// The state an event sequence drives the engine to, from `m`, under a
/// fixed candidate provider.
pub open spec fn replay<T: Item>(
    m: StateModel<T>,
    events: Seq<EventModel>,
    provider: Map<Seq<char>, Seq<T>>,
) -> StateModel<T>
    decreases events.len(),
{
    if events.len() == 0 {
        m
    } else {
        replay(provider_step(m, events[0], provider), events.skip(1), provider)
    }
}

/// Engine determinism: replaying identical event sequences from the empty
/// state under the same fixed candidate provider always yields the same
/// final state — the transition depends on nothing but state and event.
pub proof fn lemma_engine_determinism<T: Item>(
    e1: Seq<EventModel>,
    e2: Seq<EventModel>,
    provider: Map<Seq<char>, Seq<T>>,
)
    requires
        e1 == e2,
    ensures
        replay(StateModel::<T>::Empty, e1, provider) == replay(
            StateModel::<T>::Empty,
            e2,
            provider,
        ),
{
}

/// A transition of the engine follows the fixed-provider table whenever the
/// candidate provider is functional: every list it may hand back for a
/// prefix is the one the provider map records.
pub proof fn lemma_next_follows_step<T: Item, F: Fn(&str) -> Vec<T>>(
    f: F,
    m0: StateModel<T>,
    e: EventModel,
    m1: StateModel<T>,
    provider: Map<Seq<char>, Seq<T>>,
)
    requires
        next_rel(f, m0, e, m1),
        forall|s: &str, v: Vec<T>| #[trigger] call_ensures(f, (s,), v) ==> v@ == provider[s@],
    ensures
        m1 == provider_step(m0, e, provider),
{
    match e {
        EventModel::Text(p) => {
            match m0 {
                StateModel::Ambiguous(_, _) => {},
                _ => {
                    let (s, v) = choose|s: &str, v: Vec<T>|
                        s@ == p && #[trigger] call_ensures(f, (s,), v) && m1 == step(m0, e, v@);
                    assert(v@ == provider[p]);
                },
            }
        },
        EventModel::Number(_) => {},
    }
}

} // verus!
