use vstd::prelude::*;

verus! {

/// Where an instruction held by a reservation station is in its life.
#[allow(non_camel_case_types)]
#[derive(PartialEq, Eq, Structural, Clone, Copy, Debug)]
pub enum StationState {
    /// The station holds no instruction.
    IDLE,
    /// Issued; some operands may still wait for their producers.
    ISSUE,
    /// All operands are known; waiting for a functional unit.
    READY,
    /// Occupying a functional unit.
    EXEC,
    /// Finished; the result goes on the bus in the next cycle.
    WRITE_BACK,
}

/// A reservation station. `params[j]` is the value of operand `j` once known;
/// while it is unknown, `tags[j]` names the station that will produce it.
pub struct ReserveStation {
    pub params: Vec<Option<i32>>,
    pub tags: Vec<Option<usize>>,
    pub state: StationState,
    pub inst: usize,
    pub result: i32,
    pub time_left: i32,
    pub ready_punch: i32,
    pub belong: usize,
}

/// The mathematical value of a [`ReserveStation`].
pub struct StationView {
    pub params: Seq<Option<i32>>,
    pub tags: Seq<Option<usize>>,
    pub state: StationState,
    pub inst: usize,
    pub result: i32,
    pub time_left: i32,
    pub ready_punch: i32,
    pub belong: usize,
}

impl View for ReserveStation {
    type V = StationView;

    open spec fn view(&self) -> StationView {
        StationView {
            params: self.params@,
            tags: self.tags@,
            state: self.state,
            inst: self.inst,
            result: self.result,
            time_left: self.time_left,
            ready_punch: self.ready_punch,
            belong: self.belong,
        }
    }
}

/// An idle station of functional-unit group `belong`, holding nothing.
pub open spec fn fresh_station(belong: usize) -> StationView {
    StationView {
        params: Seq::empty(),
        tags: Seq::empty(),
        state: StationState::IDLE,
        inst: 0,
        result: 0,
        time_left: 0,
        ready_punch: 0,
        belong,
    }
}

/// No operand of the station waits for a producer any more.
pub open spec fn all_tags_resolved(tags: Seq<Option<usize>>) -> bool {
    forall|j: int| 0 <= j < tags.len() ==> #[trigger] tags[j] is None
}

/// The station after it has released its instruction: idle, with the
/// instruction, result and ready time reset and everything else kept.
pub open spec fn cleaned(st: StationView) -> StationView {
    StationView { state: StationState::IDLE, inst: 0, result: 0, ready_punch: 0, ..st }
}

impl ReserveStation {
    pub fn new(belong: usize) -> (st: Self)
        ensures
            st@ == fresh_station(belong),
    {
        ReserveStation {
            params: Vec::new(),
            tags: Vec::new(),
            state: StationState::IDLE,
            inst: 0,
            result: 0,
            time_left: 0,
            ready_punch: 0,
            belong: belong,
        }
    }

    /// Whether every operand is known.
    pub fn ready(&self) -> (r: bool)
        ensures
            r == all_tags_resolved(self.tags@),
    {
        let mut j: usize = 0;
        while j < self.tags.len()
            invariant
                j <= self.tags@.len(),
                forall|k: int| 0 <= k < j ==> #[trigger] self.tags@[k] is None,
            decreases self.tags@.len() - j,
        {
            if self.tags[j].is_some() {
                return false;
            }
            j += 1;
        }
        true
    }

    /// Releases the station's instruction.
    pub fn clean(&mut self)
        ensures
            final(self)@ == cleaned(old(self)@),
    {
        self.state = StationState::IDLE;
        self.inst = 0;
        self.result = 0;
        self.ready_punch = 0;
    }
}

} // verus!
