//! The bus transport capability: the four physical signals the driver
//! needs (serial write, delay, reset output, busy input, command/data
//! select output), abstracted behind one trait with a ghost event log.

use vstd::prelude::*;

verus! {

/// A logic level on one of the panel's control lines.
#[derive(Clone, Copy, Debug, PartialEq, Eq, Structural)]
pub enum Level {
    Low,
    High,
}

/// The single error category the driver surfaces: a transport failure,
/// tagged by which of the four fallible hardware operations faulted.
#[derive(Clone, Copy, Debug, PartialEq, Eq, Structural)]
pub enum TransportError {
    /// The serial write failed.
    WriteFault,
    /// Driving the reset line failed.
    ResetFault,
    /// Reading the busy line failed.
    BusyReadFault,
    /// Driving the command/data-select line failed.
    SelectFault,
}

/// One observable action on the bus, as recorded in a transport's ghost
/// event log.
pub enum BusEvent {
    /// A byte sequence was transmitted on the serial line.
    Write(Seq<u8>),
    /// The reset line was driven to a level.
    Reset(Level),
    /// The command/data-select line was driven to a level.
    Select(Level),
    /// The delay source blocked for this many milliseconds.
    Delay(u16),
    /// The busy line was polled and read at this level.
    PollBusy(Level),
}

/// The hardware access capability the driver is written against. An
/// implementation owns the serial bus, the delay source and the three
/// control lines; its ghost `events` log records every observable bus
/// action, which is what the protocol engine's contracts are stated over.
pub trait Transport: Sized {
    /// The events observed on the bus so far, oldest first.
    spec fn events(&self) -> Seq<BusEvent>;

    /// A ghost bound on how many more times the busy line can read low
    /// before it reads high. The panel drives the line high once it has
    /// finished processing; this bound makes that liveness assumption
    /// explicit and lets the driver's busy wait terminate.
    spec fn ready_within(&self) -> nat;

    /// Whether this transport can fail at all. A transport that declares
    /// itself infallible promises that every operation returns Ok, which
    /// lets the driver promise success in turn.
    spec fn infallible(&self) -> bool;

    /// Transmit `data` on the serial line. A failed write transmits and
    /// records nothing.
    fn write_bytes(&mut self, data: &[u8]) -> (r: Result<(), TransportError>)
        ensures
            r is Ok ==> final(self).events() == old(self).events().push(BusEvent::Write(data@)),
            r is Err ==> final(self).events() == old(self).events(),
            r is Err ==> r->Err_0 == TransportError::WriteFault,
            old(self).infallible() ==> r is Ok,
            final(self).infallible() == old(self).infallible(),
    ;

    /// Block for at least `ms` milliseconds.
    fn delay_ms(&mut self, ms: u16)
        ensures
            final(self).events() == old(self).events().push(BusEvent::Delay(ms)),
            final(self).ready_within() == old(self).ready_within(),
            final(self).infallible() == old(self).infallible(),
    ;

    /// Drive the reset line to `level`. A failed drive records nothing.
    fn set_reset(&mut self, level: Level) -> (r: Result<(), TransportError>)
        ensures
            r is Ok ==> final(self).events() == old(self).events().push(BusEvent::Reset(level)),
            r is Err ==> final(self).events() == old(self).events(),
            r is Err ==> r->Err_0 == TransportError::ResetFault,
            old(self).infallible() ==> r is Ok,
            final(self).infallible() == old(self).infallible(),
    ;

    /// Drive the command/data-select line to `level`. A failed drive
    /// records nothing.
    fn set_dc(&mut self, level: Level) -> (r: Result<(), TransportError>)
        ensures
            r is Ok ==> final(self).events() == old(self).events().push(BusEvent::Select(level)),
            r is Err ==> final(self).events() == old(self).events(),
            r is Err ==> r->Err_0 == TransportError::SelectFault,
            old(self).infallible() ==> r is Ok,
            final(self).infallible() == old(self).infallible(),
    ;

    /// Poll the busy line and return the level read. A failed poll
    /// records nothing.
    fn read_busy(&mut self) -> (r: Result<Level, TransportError>)
        ensures
            r is Ok ==> final(self).events() == old(self).events().push(
                BusEvent::PollBusy(r->Ok_0),
            ),
            r is Ok && r->Ok_0 == Level::Low ==> final(self).ready_within() < old(
                self,
            ).ready_within(),
            r is Err ==> final(self).events() == old(self).events(),
            r is Err ==> r->Err_0 == TransportError::BusyReadFault,
            old(self).infallible() ==> r is Ok,
            final(self).infallible() == old(self).infallible(),
    ;
}

/// One recorded bus action, the executable mirror of `BusEvent`.
#[derive(Clone, Debug, PartialEq)]
pub enum RecordedEvent {
    Write(Vec<u8>),
    Reset(Level),
    Select(Level),
    Delay(u16),
    PollBusy(Level),
}

impl View for RecordedEvent {
    type V = BusEvent;

    open spec fn view(&self) -> BusEvent {
        match self {
            RecordedEvent::Write(data) => BusEvent::Write(data@),
            RecordedEvent::Reset(level) => BusEvent::Reset(*level),
            RecordedEvent::Select(level) => BusEvent::Select(*level),
            RecordedEvent::Delay(ms) => BusEvent::Delay(*ms),
            RecordedEvent::PollBusy(level) => BusEvent::PollBusy(*level),
        }
    }
}

/// A transport that performs no hardware access: it records every action
/// in order and reports the panel as always ready. Useful for observing
/// the exact command sequence a driver emits.
pub struct RecordingTransport {
    /// Every action taken on this transport, oldest first.
    pub log: Vec<RecordedEvent>,
}

impl RecordingTransport {
    /// A transport with an empty log.
    pub fn new() -> (r: RecordingTransport)
        ensures
            r.events() == Seq::<BusEvent>::empty(),
            r.log@.len() == 0,
    {
        RecordingTransport { log: Vec::new() }
    }
}

impl Transport for RecordingTransport {
    open spec fn events(&self) -> Seq<BusEvent> {
        self.log@.map_values(|e: RecordedEvent| e@)
    }

    open spec fn ready_within(&self) -> nat {
        0
    }

    open spec fn infallible(&self) -> bool {
        true
    }

    fn write_bytes(&mut self, data: &[u8]) -> (r: Result<(), TransportError>) {
        let owned = vstd::slice::slice_to_vec(data);
        self.log.push(RecordedEvent::Write(owned));
        proof {
            assert(self.events() =~= old(self).events().push(BusEvent::Write(data@)));
        }
        Ok(())
    }

    fn delay_ms(&mut self, ms: u16) {
        self.log.push(RecordedEvent::Delay(ms));
        proof {
            assert(self.events() =~= old(self).events().push(BusEvent::Delay(ms)));
        }
    }

    fn set_reset(&mut self, level: Level) -> (r: Result<(), TransportError>) {
        self.log.push(RecordedEvent::Reset(level));
        proof {
            assert(self.events() =~= old(self).events().push(BusEvent::Reset(level)));
        }
        Ok(())
    }

    fn set_dc(&mut self, level: Level) -> (r: Result<(), TransportError>) {
        self.log.push(RecordedEvent::Select(level));
        proof {
            assert(self.events() =~= old(self).events().push(BusEvent::Select(level)));
        }
        Ok(())
    }

    fn read_busy(&mut self) -> (r: Result<Level, TransportError>) {
        self.log.push(RecordedEvent::PollBusy(Level::High));
        proof {
            assert(self.events() =~= old(self).events().push(BusEvent::PollBusy(Level::High)));
        }
        Ok(Level::High)
    }
}

/// A transport that records like `RecordingTransport` but fails its
/// `n`-th fallible operation (counting from zero) with the fault of
/// whichever operation that is. Useful for exercising mid-sequence abort
/// behavior.
pub struct FailingTransport {
    /// Every successful action taken on this transport, oldest first.
    pub log: Vec<RecordedEvent>,
    /// How many more fallible operations succeed before one fails.
    pub remaining: usize,
}

impl FailingTransport {
    /// A transport whose first `n` fallible operations succeed and whose
    /// next one fails.
    pub fn new(n: usize) -> (r: FailingTransport)
        ensures
            r.events() == Seq::<BusEvent>::empty(),
            r.remaining == n,
    {
        FailingTransport { log: Vec::new(), remaining: n }
    }
}

impl Transport for FailingTransport {
    open spec fn events(&self) -> Seq<BusEvent> {
        self.log@.map_values(|e: RecordedEvent| e@)
    }

    open spec fn ready_within(&self) -> nat {
        0
    }

    open spec fn infallible(&self) -> bool {
        false
    }

    fn write_bytes(&mut self, data: &[u8]) -> (r: Result<(), TransportError>) {
        if self.remaining == 0 {
            return Err(TransportError::WriteFault);
        }
        self.remaining = self.remaining - 1;
        let owned = vstd::slice::slice_to_vec(data);
        self.log.push(RecordedEvent::Write(owned));
        proof {
            assert(self.events() =~= old(self).events().push(BusEvent::Write(data@)));
        }
        Ok(())
    }

    fn delay_ms(&mut self, ms: u16) {
        self.log.push(RecordedEvent::Delay(ms));
        proof {
            assert(self.events() =~= old(self).events().push(BusEvent::Delay(ms)));
        }
    }

    fn set_reset(&mut self, level: Level) -> (r: Result<(), TransportError>) {
        if self.remaining == 0 {
            return Err(TransportError::ResetFault);
        }
        self.remaining = self.remaining - 1;
        self.log.push(RecordedEvent::Reset(level));
        proof {
            assert(self.events() =~= old(self).events().push(BusEvent::Reset(level)));
        }
        Ok(())
    }

    fn set_dc(&mut self, level: Level) -> (r: Result<(), TransportError>) {
        if self.remaining == 0 {
            return Err(TransportError::SelectFault);
        }
        self.remaining = self.remaining - 1;
        self.log.push(RecordedEvent::Select(level));
        proof {
            assert(self.events() =~= old(self).events().push(BusEvent::Select(level)));
        }
        Ok(())
    }

    fn read_busy(&mut self) -> (r: Result<Level, TransportError>) {
        if self.remaining == 0 {
            return Err(TransportError::BusyReadFault);
        }
        self.remaining = self.remaining - 1;
        self.log.push(RecordedEvent::PollBusy(Level::High));
        proof {
            assert(self.events() =~= old(self).events().push(BusEvent::PollBusy(Level::High)));
        }
        Ok(Level::High)
    }
}

} // verus!
