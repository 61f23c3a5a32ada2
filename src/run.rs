//! Runs: the engine's transition function folded over a sequence of events,
//! from a snapshot of its framing state and of the register file.
use vstd::prelude::*;
use crate::bit_layer::{step_result, transition, BitLayer, EngineState, SdaCommand, Transition};
use crate::error::Error;
use crate::pin_thread::Message;
use crate::protocol::I2CProtocol;

verus! {

/// One event as the engine takes it: the new level on one line and the level
/// of the other line.
pub type Event = (Message, u8);

/// The engine's framing state together with the register file, seen as a
/// map from register index to byte.
pub struct Snapshot {
    pub state: EngineState,
    pub current_register: Option<usize>,
    pub registers: Map<usize, u8>,
}

/// The register file after a transition's write, if it makes one.
pub open spec fn registers_after(
    registers: Map<usize, u8>,
    keeps: spec_fn(usize) -> bool,
    write: Option<(usize, u8)>,
) -> Map<usize, u8> {
    match write {
        Some((r, d)) => if keeps(r) {
            registers.insert(r, d)
        } else {
            registers
        },
        None => registers,
    }
}

/// The transition that event `e` makes from `s`.
pub open spec fn transition_at(s: Snapshot, claims: spec_fn(u8) -> bool, e: Event) -> Transition {
    transition(s.state, s.current_register, e.0, e.1, claims, |j: usize| s.registers[j])
}

/// The snapshot after event `e`.
pub open spec fn apply_event(
    s: Snapshot,
    claims: spec_fn(u8) -> bool,
    keeps: spec_fn(usize) -> bool,
    e: Event,
) -> Snapshot {
    let t = transition_at(s, claims, e);
    Snapshot {
        state: t.state,
        current_register: t.current_register,
        registers: registers_after(s.registers, keeps, t.write),
    }
}

/// Feeds `events` in order from `s`: the snapshot at the end and the SDA
/// commands given, one per event. `claims` and `keeps` are the register
/// protocol's claimed addresses and kept registers, which no event changes.
pub open spec fn run(
    s: Snapshot,
    claims: spec_fn(u8) -> bool,
    keeps: spec_fn(usize) -> bool,
    events: Seq<Event>,
) -> (Snapshot, Seq<SdaCommand>)
    decreases events.len(),
{
    if events.len() == 0 {
        (s, Seq::empty())
    } else {
        let t = transition_at(s, claims, events[0]);
        let rest = run(apply_event(s, claims, keeps, events[0]), claims, keeps, events.drop_first());
        (rest.0, seq![t.command] + rest.1)
    }
}

/// Running one event is applying it.
pub proof fn lemma_run_single(s: Snapshot, claims: spec_fn(u8) -> bool, keeps: spec_fn(usize) -> bool, e: Event)
    ensures
        run(s, claims, keeps, seq![e]).0 == apply_event(s, claims, keeps, e),
        run(s, claims, keeps, seq![e]).1 == seq![transition_at(s, claims, e).command],
{
    reveal_with_fuel(run, 2);
    assert(seq![e].drop_first() =~= Seq::<Event>::empty());
    assert(seq![transition_at(s, claims, e).command] + Seq::<SdaCommand>::empty() =~= seq![
        transition_at(s, claims, e).command,
    ]);
}

/// Running two sequences one after the other is running their concatenation.
pub proof fn lemma_run_append(
    s: Snapshot,
    claims: spec_fn(u8) -> bool,
    keeps: spec_fn(usize) -> bool,
    a: Seq<Event>,
    b: Seq<Event>,
)
    ensures
        run(s, claims, keeps, a + b).0 == run(run(s, claims, keeps, a).0, claims, keeps, b).0,
        run(s, claims, keeps, a + b).1 == run(s, claims, keeps, a).1 + run(
            run(s, claims, keeps, a).0,
            claims,
            keeps,
            b,
        ).1,
    decreases a.len(),
{
    if a.len() == 0 {
        assert(a + b =~= b);
        assert(run(s, claims, keeps, a).1 + run(s, claims, keeps, b).1 =~= run(s, claims, keeps, b).1);
    } else {
        let s1 = apply_event(s, claims, keeps, a[0]);
        assert((a + b).drop_first() =~= a.drop_first() + b);
        assert((a + b)[0] == a[0]);
        lemma_run_append(s1, claims, keeps, a.drop_first(), b);
        let c = transition_at(s, claims, a[0]).command;
        let ra = run(s1, claims, keeps, a.drop_first());
        let rb = run(ra.0, claims, keeps, b);
        assert(seq![c] + (ra.1 + rb.1) =~= (seq![c] + ra.1) + rb.1);
    }
}


pub proof fn lemma_run2(s: Snapshot, claims: spec_fn(u8) -> bool, keeps: spec_fn(usize) -> bool, e1: Event, e2: Event)
    ensures
        ({
            let s1 = apply_event(s, claims, keeps, e1);
            &&& run(s, claims, keeps, seq![e1, e2]).0 == apply_event(s1, claims, keeps, e2)
            &&& run(s, claims, keeps, seq![e1, e2]).1 == seq![
                transition_at(s, claims, e1).command,
                transition_at(s1, claims, e2).command,
            ]
        }),
{
    assert(seq![e1, e2] =~= seq![e1] + seq![e2]);
    lemma_run_append(s, claims, keeps, seq![e1], seq![e2]);
    lemma_run_single(s, claims, keeps, e1);
    lemma_run_single(apply_event(s, claims, keeps, e1), claims, keeps, e2);
    assert(seq![transition_at(s, claims, e1).command] + seq![
        transition_at(apply_event(s, claims, keeps, e1), claims, e2).command,
    ] =~= seq![
        transition_at(s, claims, e1).command,
        transition_at(apply_event(s, claims, keeps, e1), claims, e2).command,
    ]);
}

pub proof fn lemma_run3(
    s: Snapshot,
    claims: spec_fn(u8) -> bool,
    keeps: spec_fn(usize) -> bool,
    e1: Event,
    e2: Event,
    e3: Event,
)
    ensures
        ({
            let s1 = apply_event(s, claims, keeps, e1);
            let s2 = apply_event(s1, claims, keeps, e2);
            &&& run(s, claims, keeps, seq![e1, e2, e3]).0 == apply_event(s2, claims, keeps, e3)
            &&& run(s, claims, keeps, seq![e1, e2, e3]).1 == seq![
                transition_at(s, claims, e1).command,
                transition_at(s1, claims, e2).command,
                transition_at(s2, claims, e3).command,
            ]
        }),
{
    let s1 = apply_event(s, claims, keeps, e1);
    assert(seq![e1, e2, e3] =~= seq![e1] + seq![e2, e3]);
    lemma_run_append(s, claims, keeps, seq![e1], seq![e2, e3]);
    lemma_run_single(s, claims, keeps, e1);
    lemma_run2(s1, claims, keeps, e2, e3);
    let s2 = apply_event(s1, claims, keeps, e2);
    assert(seq![transition_at(s, claims, e1).command] + seq![
        transition_at(s1, claims, e2).command,
        transition_at(s2, claims, e3).command,
    ] =~= seq![
        transition_at(s, claims, e1).command,
        transition_at(s1, claims, e2).command,
        transition_at(s2, claims, e3).command,
    ]);
}

/// The snapshot of an engine: its framing state and what its registers read as.
pub open spec fn snapshot_of<P: I2CProtocol>(e: BitLayer<P>) -> Snapshot {
    Snapshot {
        state: e.spec_state(),
        current_register: e.spec_current_register(),
        registers: Map::new(|j: usize| true, |j: usize| e.spec_implementation().stored(j)),
    }
}

/// Whether the engine `e` stands where a run from a snapshot ended: the same
/// framing state, and every register reads as in the run's register file.
pub open spec fn matches_snapshot<P: I2CProtocol>(e: BitLayer<P>, s: Snapshot) -> bool {
    &&& e.spec_state() == s.state
    &&& e.spec_current_register() == s.current_register
    &&& forall|j: usize| #[trigger] e.spec_implementation().stored(j) == s.registers[j]
}



/// A run gives one command per event.
pub proof fn lemma_run_length(s: Snapshot, claims: spec_fn(u8) -> bool, keeps: spec_fn(usize) -> bool, events: Seq<Event>)
    ensures
        run(s, claims, keeps, events).1.len() == events.len(),
    decreases events.len(),
{
    if events.len() > 0 {
        lemma_run_length(apply_event(s, claims, keeps, events[0]), claims, keeps, events.drop_first());
    }
}


/// What `step` answers to each event of a run from `s`, in order.
pub open spec fn run_results(
    s: Snapshot,
    claims: spec_fn(u8) -> bool,
    keeps: spec_fn(usize) -> bool,
    events: Seq<Event>,
) -> Seq<Result<SdaCommand, Error>>
    decreases events.len(),
{
    if events.len() == 0 {
        Seq::empty()
    } else {
        seq![step_result(transition_at(s, claims, events[0]))] + run_results(
            apply_event(s, claims, keeps, events[0]),
            claims,
            keeps,
            events.drop_first(),
        )
    }
}

/// The answers over two sequences run one after the other are the answers
/// over their concatenation.
pub proof fn lemma_run_results_append(
    s: Snapshot,
    claims: spec_fn(u8) -> bool,
    keeps: spec_fn(usize) -> bool,
    a: Seq<Event>,
    b: Seq<Event>,
)
    ensures
        run_results(s, claims, keeps, a + b) == run_results(s, claims, keeps, a) + run_results(
            run(s, claims, keeps, a).0,
            claims,
            keeps,
            b,
        ),
    decreases a.len(),
{
    if a.len() == 0 {
        assert(a + b =~= b);
        assert(run_results(s, claims, keeps, a) + run_results(s, claims, keeps, b) =~= run_results(s, claims, keeps, b));
    } else {
        let s1 = apply_event(s, claims, keeps, a[0]);
        assert((a + b).drop_first() =~= a.drop_first() + b);
        assert((a + b)[0] == a[0]);
        lemma_run_results_append(s1, claims, keeps, a.drop_first(), b);
        let h = seq![step_result(transition_at(s, claims, a[0]))];
        let ra = run_results(s1, claims, keeps, a.drop_first());
        let rb = run_results(run(s1, claims, keeps, a.drop_first()).0, claims, keeps, b);
        assert(h + (ra + rb) =~= (h + ra) + rb);
    }
}

/// The answer to one event.
pub proof fn lemma_run_results_single(s: Snapshot, claims: spec_fn(u8) -> bool, keeps: spec_fn(usize) -> bool, e: Event)
    ensures
        run_results(s, claims, keeps, seq![e]) == seq![step_result(transition_at(s, claims, e))],
{
    reveal_with_fuel(run_results, 2);
    assert(seq![e].drop_first() =~= Seq::<Event>::empty());
    assert(seq![step_result(transition_at(s, claims, e))] + Seq::<Result<SdaCommand, Error>>::empty()
        =~= seq![step_result(transition_at(s, claims, e))]);
}

} // verus!
