//! The reconstruction engine: one forward pass over the records in chronological
//! order, painting the accepted ones and saying when a snapshot is due.

use std::collections::HashSet;
use vstd::prelude::*;
use crate::access::{
    ascii_text, colour_field, line_fault, location_of, user_field, Access, Location,
};
use crate::canvas::{blank, fits, Canvas};
use crate::colour::{colour_of, same_text, ColourTable};
use crate::error::FormatError;

verus! {

broadcast use vstd::std_specs::hash::group_hash_axioms;

/// A rectangle of the shared canvas, from its least corner up to but not including
/// its greatest one.
#[derive(Debug, Clone, Copy, PartialEq, Eq, Structural)]
pub struct Bounds {
    pub min_x: u32,
    pub min_y: u32,
    pub max_x: u32,
    pub max_y: u32,
}

impl Bounds {
    /// Whether `(x, y)` lies in the rectangle.
    pub open spec fn contains(self, x: u32, y: u32) -> bool {
        self.min_x <= x && x < self.max_x && self.min_y <= y && y < self.max_y
    }

    /// Whether neither side has its end before its start.
    pub open spec fn is_ordered(self) -> bool {
        self.min_x <= self.max_x && self.min_y <= self.max_y
    }

    /// Decides [`Bounds::contains`].
    pub fn includes(&self, x: u32, y: u32) -> (inside: bool)
        ensures
            inside == self.contains(x, y),
    {
        self.min_x <= x && x < self.max_x && self.min_y <= y && y < self.max_y
    }
}

/// Why an engine cannot be set up.
#[derive(Debug, Clone, Copy, PartialEq, Eq, Structural)]
pub enum ConfigError {
    /// A snapshot every zero records is no cadence.
    ZeroSpacing,
    /// The bounds end before they start.
    InvertedBounds,
    /// A canvas of the bounds' size cannot be allocated.
    TooLarge,
}

/// Why a run stopped.
#[derive(Debug, Clone, Copy, PartialEq, Eq, Structural)]
pub enum EngineError {
    /// A line is no record.
    Format(FormatError),
    /// An accepted record names a colour that the table lacks.
    UnknownColour,
    /// The counter of accepted records cannot rise further.
    Full,
    /// The run is over, by `finish` or by an earlier error.
    Finished,
}

/// Where a run stands.
#[derive(Debug, Clone, Copy, PartialEq, Eq, Structural)]
pub enum Phase {
    /// No record was handed in yet.
    Idle,
    /// Records are being applied.
    Streaming,
    /// The run is over.
    Done,
}

/// What one record did.
#[derive(Debug, Clone, Copy, PartialEq, Eq, Structural)]
pub enum Step {
    /// The record was filtered out and changed nothing.
    Skipped,
    /// The record was painted.
    Painted,
    /// The record was painted and the canvas as it now stands is the snapshot with
    /// this number.
    Snapshot(u64),
}

/// The counters at the end of a run.
#[derive(Debug, Clone, Copy, PartialEq, Eq, Structural)]
pub struct Summary {
    pub accepted: u64,
    pub duplicates: u64,
}

/// What an engine was set up with.
pub struct Setup {
    pub bounds: Bounds,
    pub spacing: u32,
    pub agent: Option<Seq<char>>,
    pub palette: Seq<Seq<char>>,
}

/// What an engine has come to.
pub struct State {
    pub phase: Phase,
    pub accepted: u64,
    pub duplicates: u64,
    pub pixels: Map<(u32, u32), Seq<u8>>,
    pub touched: Set<(u32, u32)>,
}

/// What keeps a configuration from being run, if anything does.
pub open spec fn config_fault(bounds: Bounds, spacing: u32) -> Option<ConfigError> {
    if spacing == 0 {
        Some(ConfigError::ZeroSpacing)
    } else if !bounds.is_ordered() {
        Some(ConfigError::InvertedBounds)
    } else if !fits((bounds.max_x - bounds.min_x) as u32, (bounds.max_y - bounds.min_y) as u32) {
        Some(ConfigError::TooLarge)
    } else {
        None
    }
}

/// The state a run starts in.
pub open spec fn initial(bounds: Bounds, background: Seq<u8>) -> State {
    State {
        phase: Phase::Idle,
        accepted: 0,
        duplicates: 0,
        pixels: blank(
            (bounds.max_x - bounds.min_x) as u32,
            (bounds.max_y - bounds.min_y) as u32,
            background,
        ),
        touched: Set::empty(),
    }
}

/// The canvas position a record is to paint, if it passes the filters: it must
/// name a single pixel inside the bounds and, where an agent is set, come from that
/// agent. A rectangle is read and passed over.
pub open spec fn target(setup: Setup, text: Seq<char>) -> Result<Option<(u32, u32)>, FormatError> {
    match location_of(text) {
        Err(fault) => Err(fault),
        Ok(Location::Range(_, _, _, _)) => Ok(None),
        Ok(Location::Coords(x, y)) => {
            if setup.bounds.contains(x, y) && (setup.agent matches Some(agent) ==> agent
                == user_field(text)) {
                Ok(Some(((x - setup.bounds.min_x) as u32, (y - setup.bounds.min_y) as u32)))
            } else {
                Ok(None)
            }
        },
    }
}

/// `state` after a fatal error.
pub open spec fn halted(state: State) -> State {
    State { phase: Phase::Done, ..state }
}

/// What a record does to a run: the state it leaves and what it reports. A run
/// that is over takes no record. A malformed record, an unknown colour and a full
/// counter end the run and change nothing else. A record that is filtered out
/// changes nothing. An accepted one overwrites its pixel, counts as a duplicate
/// where an agent is set and the position was painted before, and is a snapshot
/// where the count of records accepted before it is a multiple of the spacing.
pub open spec fn advance(setup: Setup, state: State, text: Seq<char>) -> (
    State,
    Result<Step, EngineError>,
) {
    if state.phase is Done {
        (state, Err(EngineError::Finished))
    } else {
        match target(setup, text) {
            Err(fault) => (halted(state), Err(EngineError::Format(fault))),
            Ok(None) => (State { phase: Phase::Streaming, ..state }, Ok(Step::Skipped)),
            Ok(Some(at)) => {
                if !setup.palette.contains(colour_field(text)) {
                    (halted(state), Err(EngineError::UnknownColour))
                } else if state.accepted == u64::MAX {
                    (halted(state), Err(EngineError::Full))
                } else {
                    let recurs = setup.agent is Some && state.touched.contains(at);
                    (
                        State {
                            phase: Phase::Streaming,
                            accepted: (state.accepted + 1) as u64,
                            duplicates: if recurs {
                                (state.duplicates + 1) as u64
                            } else {
                                state.duplicates
                            },
                            pixels: state.pixels.insert(at, colour_of(colour_field(text))->0),
                            touched: if setup.agent is Some {
                                state.touched.insert(at)
                            } else {
                                state.touched
                            },
                        },
                        Ok(
                            if state.accepted % (setup.spacing as u64) == 0 {
                                Step::Snapshot(state.accepted / (setup.spacing as u64))
                            } else {
                                Step::Painted
                            },
                        ),
                    )
                }
            },
        }
    }
}

/// What a raw line does to a run: a line that is no record ends it, any other
/// acts as [`advance`] says of its text.
pub open spec fn advance_line(setup: Setup, state: State, line: Seq<u8>) -> (
    State,
    Result<Step, EngineError>,
) {
    if state.phase is Done {
        (state, Err(EngineError::Finished))
    } else {
        match line_fault(line) {
            Some(fault) => (halted(state), Err(EngineError::Format(fault))),
            None => advance(setup, state, ascii_text(line)),
        }
    }
}

/// The number that stands for a position in the set of painted positions.
pub open spec fn key_of(at: (u32, u32)) -> u64 {
    (at.0 * 4294967296 + at.1) as u64
}

/// The engine of one reconstruction run.
#[derive(Debug)]
pub struct Engine {
    bounds: Bounds,
    spacing: u32,
    agent: Option<String>,
    palette: ColourTable,
    canvas: Canvas,
    touched: HashSet<u64>,
    accepted: u64,
    duplicates: u64,
    phase: Phase,
}

impl Engine {
    #[verifier::type_invariant]
    spec fn well_formed(self) -> bool {
        &&& self.spacing > 0
        &&& self.bounds.is_ordered()
        &&& self.canvas.extent() == (
            (self.bounds.max_x - self.bounds.min_x) as u32,
            (self.bounds.max_y - self.bounds.min_y) as u32,
        )
        &&& self.duplicates <= self.accepted
    }

    /// What the engine was set up with.
    pub closed spec fn setup(&self) -> Setup {
        Setup {
            bounds: self.bounds,
            spacing: self.spacing,
            agent: match self.agent {
                Some(name) => Some(name@),
                None => None,
            },
            palette: self.palette.names(),
        }
    }

    /// What the engine has come to.
    pub closed spec fn state(&self) -> State {
        State {
            phase: self.phase,
            accepted: self.accepted,
            duplicates: self.duplicates,
            pixels: self.canvas@,
            touched: Set::new(|at: (u32, u32)| self.touched@.contains(key_of(at))),
        }
    }

    /// The size of the canvas.
    pub closed spec fn extent(&self) -> (u32, u32) {
        self.canvas.extent()
    }

    /// Sets up a run over `bounds` that paints on `background`, is due a snapshot
    /// every `spacing` accepted records, takes its colours from `palette` and, where
    /// `agent` is given, accepts that agent's records only and counts its
    /// duplicates.
    pub fn new(
        bounds: Bounds,
        spacing: u32,
        agent: Option<String>,
        palette: ColourTable,
        background: [u8; 3],
    ) -> (result: Result<Engine, ConfigError>)
        ensures
            match result {
                Ok(engine) => {
                    &&& config_fault(bounds, spacing) is None
                    &&& engine.setup() == (Setup {
                        bounds,
                        spacing,
                        agent: match agent {
                            Some(name) => Some(name@),
                            None => None,
                        },
                        palette: palette.names(),
                    })
                    &&& engine.state() == initial(bounds, background@)
                    &&& engine.extent() == (
                        (bounds.max_x - bounds.min_x) as u32,
                        (bounds.max_y - bounds.min_y) as u32,
                    )
                },
                Err(fault) => config_fault(bounds, spacing) == Some(fault),
            },
    {
        if spacing == 0 {
            return Err(ConfigError::ZeroSpacing);
        }
        if bounds.max_x < bounds.min_x || bounds.max_y < bounds.min_y {
            return Err(ConfigError::InvertedBounds);
        }
        let canvas = match Canvas::new(
            bounds.max_x - bounds.min_x,
            bounds.max_y - bounds.min_y,
            background,
        ) {
            Some(canvas) => canvas,
            None => {
                return Err(ConfigError::TooLarge);
            },
        };
        let engine = Engine {
            bounds,
            spacing,
            agent,
            palette,
            canvas,
            touched: HashSet::new(),
            accepted: 0,
            duplicates: 0,
            phase: Phase::Idle,
        };
        assert(engine.state().touched =~= Set::empty());
        Ok(engine)
    }

    /// Where the run stands.
    pub fn phase(&self) -> (phase: Phase)
        ensures
            phase == self.state().phase,
    {
        self.phase
    }

    /// The number of records accepted so far.
    pub fn accepted(&self) -> (count: u64)
        ensures
            count == self.state().accepted,
    {
        self.accepted
    }

    /// The number of accepted records that painted a position painted before.
    pub fn duplicates(&self) -> (count: u64)
        ensures
            count == self.state().duplicates,
            count <= self.state().accepted,
    {
        proof {
            use_type_invariant(self);
        }
        self.duplicates
    }

    /// The canvas as it stands.
    pub fn canvas(&self) -> (canvas: &Canvas)
        ensures
            canvas@ == self.state().pixels,
            canvas.extent() == self.extent(),
    {
        &self.canvas
    }

    /// Applies one record.
    pub fn apply(&mut self, record: &Access) -> (result: Result<Step, EngineError>)
        ensures
            final(self).setup() == old(self).setup(),
            final(self).extent() == old(self).extent(),
            (final(self).state(), result) == advance(
                old(self).setup(),
                old(self).state(),
                record@,
            ),
    {
        proof {
            use_type_invariant(&*self);
        }
        if let Phase::Done = self.phase {
            return Err(EngineError::Finished);
        }
        let location = match record.coords() {
            Ok(location) => location,
            Err(fault) => {
                self.phase = Phase::Done;
                return Err(EngineError::Format(fault));
            },
        };
        let (x, y) = match location {
            Location::Coords(x, y) => (x, y),
            Location::Range(_, _, _, _) => {
                self.phase = Phase::Streaming;
                return Ok(Step::Skipped);
            },
        };
        let wanted: bool = match &self.agent {
            Some(name) => same_text(name.as_str(), record.user_id()),
            None => true,
        };
        if !self.bounds.includes(x, y) || !wanted {
            self.phase = Phase::Streaming;
            return Ok(Step::Skipped);
        }
        let colour: [u8; 3] = match self.palette.lookup(record.colour()) {
            Some(colour) => colour,
            None => {
                self.phase = Phase::Done;
                return Err(EngineError::UnknownColour);
            },
        };
        if self.accepted == u64::MAX {
            self.phase = Phase::Done;
            return Err(EngineError::Full);
        }
        let at_x: u32 = x - self.bounds.min_x;
        let at_y: u32 = y - self.bounds.min_y;
        let painted: bool = self.canvas.paint(at_x, at_y, colour);
        assert(painted);
        let mut recurs: bool = false;
        if self.agent.is_some() {
            let key: u64 = at_x as u64 * 4294967296u64 + at_y as u64;
            // The set is taken out of the engine while it is changed and put back after.
            let mut touched: HashSet<u64> = HashSet::new();
            std::mem::swap(&mut self.touched, &mut touched);
            let fresh: bool = touched.insert(key);
            std::mem::swap(&mut self.touched, &mut touched);
            recurs = !fresh;
            assert(old(self).state().touched.insert((at_x, at_y)) =~= self.state().touched) by {
                assert forall|at: (u32, u32)|
                    self.state().touched.contains(at) <==> #[trigger] old(
                        self,
                    ).state().touched.insert((at_x, at_y)).contains(at) by {
                    if key_of(at) == key {
                        assert(at.0 == at_x && at.1 == at_y);
                    }
                }
            }
        }
        let count: u64 = self.accepted;
        self.accepted = count + 1;
        if recurs {
            self.duplicates = self.duplicates + 1;
        }
        self.phase = Phase::Streaming;
        if count % (self.spacing as u64) == 0 {
            Ok(Step::Snapshot(count / (self.spacing as u64)))
        } else {
            Ok(Step::Painted)
        }
    }

    /// Reads one raw line, without its newline, and applies it.
    pub fn step(&mut self, line: Vec<u8>) -> (result: Result<Step, EngineError>)
        ensures
            final(self).setup() == old(self).setup(),
            final(self).extent() == old(self).extent(),
            (final(self).state(), result) == advance_line(
                old(self).setup(),
                old(self).state(),
                line@,
            ),
    {
        if let Phase::Done = self.phase {
            return Err(EngineError::Finished);
        }
        match Access::new(line) {
            Ok(record) => self.apply(&record),
            Err(fault) => {
                proof {
                    use_type_invariant(&*self);
                }
                self.phase = Phase::Done;
                Err(EngineError::Format(fault))
            },
        }
    }

    /// Ends the run and reports the counters. Nothing is pending at this point: a
    /// snapshot is reported by the record that makes it due.
    pub fn finish(&mut self) -> (summary: Summary)
        ensures
            final(self).setup() == old(self).setup(),
            final(self).extent() == old(self).extent(),
            final(self).state() == halted(old(self).state()),
            summary == (Summary {
                accepted: old(self).state().accepted,
                duplicates: old(self).state().duplicates,
            }),
    {
        proof {
            use_type_invariant(&*self);
        }
        self.phase = Phase::Done;
        Summary { accepted: self.accepted, duplicates: self.duplicates }
    }
}

/// Whether a record is painted: it passes the filters, its colour is in the
/// palette, and the run can take it.
pub open spec fn paints(setup: Setup, state: State, text: Seq<char>) -> bool {
    &&& !(state.phase is Done)
    &&& target(setup, text) matches Ok(Some(_))
    &&& setup.palette.contains(colour_field(text))
    &&& state.accepted < u64::MAX
}

/// A painted record counts once and leaves its colour at its position, whatever
/// was there before; every other position keeps what it had. It is a snapshot
/// exactly when the count of records painted before it is a multiple of the
/// spacing, and the snapshot's number is that count divided by the spacing.
pub proof fn lemma_painted_record(setup: Setup, state: State, text: Seq<char>)
    requires
        paints(setup, state, text),
    ensures
        ({
            let (after, report) = advance(setup, state, text);
            let at = target(setup, text)->Ok_0->0;
            &&& report == Ok::<Step, EngineError>(
                if state.accepted % (setup.spacing as u64) == 0 {
                    Step::Snapshot(state.accepted / (setup.spacing as u64))
                } else {
                    Step::Painted
                },
            )
            &&& after.accepted == state.accepted + 1
            &&& after.pixels[at] == colour_of(colour_field(text))->0
            &&& forall|other: (u32, u32)|
                other != at && state.pixels.dom().contains(other) ==> after.pixels[other]
                    == state.pixels[other]
        }),
{
}

/// Of two painted records in a row at one position the later one wins, and with an
/// agent set it counts as a duplicate. The duplicates counted so far must not
/// outnumber the accepted records, as is so in every run.
pub proof fn lemma_last_write_wins(setup: Setup, state: State, first: Seq<char>, second: Seq<char>)
    requires
        state.duplicates <= state.accepted,
        paints(setup, state, first),
        paints(setup, advance(setup, state, first).0, second),
        target(setup, first) == target(setup, second),
    ensures
        ({
            let between = advance(setup, state, first).0;
            let after = advance(setup, between, second).0;
            let at = target(setup, second)->Ok_0->0;
            &&& after.pixels[at] == colour_of(colour_field(second))->0
            &&& after.accepted == state.accepted + 2
            &&& setup.agent is Some ==> after.duplicates == between.duplicates + 1
            &&& setup.agent is None ==> after.duplicates == state.duplicates
        }),
{
}

/// A record that is not painted leaves the canvas and the counters as they were.
pub proof fn lemma_unpainted_record(setup: Setup, state: State, text: Seq<char>)
    requires
        !paints(setup, state, text),
    ensures
        ({
            let after = advance(setup, state, text).0;
            &&& after.pixels == state.pixels
            &&& after.accepted == state.accepted
            &&& after.duplicates == state.duplicates
            &&& after.touched == state.touched
        }),
{
}

} // verus!
