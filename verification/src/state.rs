use vstd::prelude::*;

verus! {

/// Disease state of one agent. Aged variants carry `t`, the number of
/// days spent in (or, for `Detected`, since entering) the state.
#[derive(Clone, Copy, PartialEq, Eq, Structural, Debug)]
pub enum State {
    Susceptible,
    /// Undetected infectious; `t` counts days since entering `Infected`.
    Infected(usize),
    /// Detected infectious; `t` continues counting from `Infected`.
    Detected(usize),
    /// Hospitalized; `t` counts days in `Severe`.
    Severe(usize),
    /// Needed hospitalization but none was available.
    Unattended,
    /// Recovered; `t` counts days since recovery.
    Immune(usize),
    Dead,
}

/// Census slot of a state: the seven counter slots in declaration order.
pub open spec fn idx_of(s: State) -> int {
    match s {
        State::Susceptible => 0,
        State::Infected(_) => 1,
        State::Detected(_) => 2,
        State::Severe(_) => 3,
        State::Unattended => 4,
        State::Immune(_) => 5,
        State::Dead => 6,
    }
}

/// Age carried by a state; states without an age count as 0.
pub open spec fn age_of(s: State) -> int {
    match s {
        State::Infected(t) => t as int,
        State::Detected(t) => t as int,
        State::Severe(t) => t as int,
        State::Immune(t) => t as int,
        _ => 0,
    }
}

impl State {
    /// Slot of this state in the seven-slot counters.
    pub fn index(&self) -> (r: usize)
        ensures
            r == idx_of(*self),
    {
        match self {
            State::Susceptible => 0,
            State::Infected(_) => 1,
            State::Detected(_) => 2,
            State::Severe(_) => 3,
            State::Unattended => 4,
            State::Immune(_) => 5,
            State::Dead => 6,
        }
    }
}

/// The successor states the per-agent scan may produce in one tick,
/// before the contact-tracing drain runs.
pub open spec fn scan_step(pre: State, post: State) -> bool {
    match pre {
        State::Susceptible => post == State::Susceptible || post == State::Infected(0usize),
        State::Infected(t) => {
            ||| post == State::Immune(0usize)
            ||| post == State::Detected((t + 1) as usize)
            ||| post == State::Severe(0usize)
            ||| post == State::Unattended
            ||| post == State::Infected((t + 1) as usize)
        },
        State::Detected(t) => {
            ||| post == State::Immune(0usize)
            ||| post == State::Severe(0usize)
            ||| post == State::Unattended
            ||| post == State::Detected((t + 1) as usize)
        },
        State::Severe(t) => {
            ||| post == State::Immune(0usize)
            ||| post == State::Dead
            ||| post == State::Severe((t + 1) as usize)
        },
        State::Unattended => post == State::Dead || post == State::Severe(1usize),
        State::Immune(t) => post == State::Susceptible || post == State::Immune(
            (t + 1) as usize,
        ),
        State::Dead => post == State::Dead,
    }
}

/// All state changes one full tick may make to one agent: a scan step,
/// possibly followed by the tracing drain flipping `Infected(t)` to
/// `Detected(t)`.
pub open spec fn tick_step(pre: State, post: State) -> bool {
    ||| scan_step(pre, post)
    ||| match pre {
        State::Susceptible => post == State::Detected(0usize),
        State::Infected(t) => post == State::Detected((t + 1) as usize),
        _ => false,
    }
}


/// Age monotonicity: an agent that stays in its (aged) state across a
/// tick has its age advanced by exactly one day.
pub proof fn lemma_age_monotone(pre: State, post: State)
    requires
        tick_step(pre, post),
        idx_of(pre) == idx_of(post),
        age_of(pre) < usize::MAX,
        pre matches State::Infected(_) || pre matches State::Detected(_) || pre
            matches State::Severe(_) || pre matches State::Immune(_),
    ensures
        age_of(post) == age_of(pre) + 1,
{
}

/// Unattended progression: an agent left unattended is, one tick
/// later, either dead or finally admitted as `Severe(1)`.
pub proof fn lemma_unattended_progression(post: State)
    requires
        tick_step(State::Unattended, post),
    ensures
        post == State::Dead || post == State::Severe(1usize),
{
}

} // verus!
