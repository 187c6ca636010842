//! The worker that owns the one connection to the controller. It never
//! touches the transport itself: it says which action comes next, takes
//! the outcome of that action as an event, and moves on. Whoever drives it
//! performs one action at a time, so no two transactions are ever in
//! flight together.

use vstd::prelude::*;
use crate::codec::join_halves;
use crate::params::addressable;
use crate::params::id_set;
use crate::params::register_address;
use crate::params::Kind;
use crate::params::ParameterSpec;
use crate::params::Reading;
use crate::ranges::coalesced;
use crate::ranges::RegisterRange;

verus! {

/// The delay before each attempt to connect, in milliseconds.
pub const RETRY_DELAY_MS: u64 = 1000;

/// The delay after each poll cycle, in milliseconds.
pub const CYCLE_DELAY_MS: u64 = 500;

/// A request to read one parameter outside the periodic poll.
#[derive(Clone, Copy, Debug, PartialEq, Eq, Structural)]
pub struct ReadRequest {
    pub id: u16,
    pub kind: Kind,
}

/// A request to write the register pair of one parameter. `reg0` goes to
/// the lower address.
#[derive(Clone, Copy, Debug, PartialEq, Eq, Structural)]
pub struct WriteRequest {
    pub id: u16,
    pub reg0: u16,
    pub reg1: u16,
}

impl WriteRequest {
    /// The request that writes the integer `val` to parameter `id`.
    pub fn from_int(id: u16, val: u32) -> (request: WriteRequest)
        ensures
            request.id == id,
            request.reg0 == crate::codec::low_half(val),
            request.reg1 == crate::codec::high_half(val),
    {
        let regs = crate::codec::from_int(val);
        WriteRequest { id, reg0: regs[0], reg1: regs[1] }
    }

    /// The request that writes the float `val` to parameter `id`.
    pub fn from_float(id: u16, val: crate::codec::Float32) -> (request: WriteRequest)
        ensures
            request.id == id,
            request.reg0 == crate::codec::low_half(val.bits),
            request.reg1 == crate::codec::high_half(val.bits),
    {
        let regs = crate::codec::from_float(val);
        WriteRequest { id, reg0: regs[0], reg1: regs[1] }
    }

    /// The request that writes 32 flags to parameter `id`: bit `i` of the
    /// integer written is set exactly when `flags[i]` is true.
    pub fn from_flags(id: u16, flags: &[bool; 32]) -> (request: WriteRequest)
        ensures
            request.id == id,
            crate::codec::bits_of(join_halves(request.reg0, request.reg1)) == flags@,
    {
        let val = crate::codec::pack_bits(flags);
        proof {
            crate::codec::lemma_int_round_trip(val);
        }
        let regs = crate::codec::from_int(val);
        WriteRequest { id, reg0: regs[0], reg1: regs[1] }
    }
}

/// Why a request was not queued.
#[derive(Clone, Copy, Debug, PartialEq, Eq, Structural)]
pub enum RequestError {
    /// The parameter id is 0, or its registers have no 16-bit address.
    IdOutOfRange,
}

/// Why a list of parameters was not accepted.
#[derive(Clone, Copy, Debug, PartialEq, Eq, Structural)]
pub enum ConfigError {
    /// The parameter at `index` has id 0, or registers without a 16-bit
    /// address.
    IdOutOfRange { index: usize },
}

/// The state of the connection.
#[derive(Clone, Copy, Debug, PartialEq, Eq, Structural)]
pub enum Link {
    Disconnected,
    Connecting,
    Polling,
}

/// Where the worker stands: the action that is under way.
#[derive(Clone, Copy, Debug, PartialEq, Eq, Structural)]
pub enum Stage {
    /// Disconnected: closing the connection that failed.
    Closing,
    /// Disconnected: waiting before the next attempt to connect.
    Waiting,
    /// Connecting.
    Connecting,
    /// Polling: reading the range with this index.
    Bulk(usize),
    /// Polling: handing out the snapshot of the finished bulk poll.
    Publishing,
    /// Polling: reading the parameter of an on-demand request.
    Loading(ReadRequest),
    /// Polling: handing out the value read on demand.
    Reporting(Reading),
    /// Polling: writing the register pair of an on-demand request.
    Storing(WriteRequest),
    /// Polling: waiting before the next cycle.
    Resting,
}

/// What the driver is to do next.
#[derive(Clone, Copy, Debug, PartialEq, Eq, Structural)]
pub enum Action {
    /// Let this many milliseconds pass.
    Wait { millis: u64 },
    /// Establish the connection.
    Connect,
    /// Close the connection.
    Disconnect,
    /// Read `count` input registers from `address` on.
    ReadInput { address: u16, count: u16 },
    /// Write `reg0` to `address` and `reg1` to the register after it.
    WriteRegisters { address: u16, reg0: u16, reg1: u16 },
    /// Hand the readings of the cycle to the display and to the log.
    Publish,
    /// Hand the reading made on demand to the display.
    Report(Reading),
}

/// How an action ended.
#[derive(Debug)]
pub enum Event {
    /// The action was carried out and gave no data.
    Completed,
    /// The controller replied with these registers.
    Registers(Vec<u16>),
    /// The controller replied with an exception: the link stands.
    Exception,
    /// The transport failed: the link is down.
    Failed,
}

/// The registers that an event brings: those of a reply, none otherwise.
pub open spec fn reply(event: Event) -> Seq<u16> {
    match event {
        Event::Registers(regs) => regs@,
        _ => Seq::empty(),
    }
}

/// Register `j` of a reply; a register that the reply lacks reads as 0.
pub open spec fn register_at(regs: Seq<u16>, j: int) -> u16 {
    if 0 <= j < regs.len() {
        regs[j]
    } else {
        0
    }
}

/// The 32-bit content of register pair `n` of a reply.
pub open spec fn pair_at(regs: Seq<u16>, n: int) -> u32 {
    join_halves(register_at(regs, 2 * n), register_at(regs, 2 * n + 1))
}

/// The worker as a mathematical value.
#[verifier::ext_equal]
pub struct Model {
    /// The configured parameters, in their given order.
    pub specs: Seq<ParameterSpec>,
    /// The coalescing of their ids.
    pub ranges: Seq<RegisterRange>,
    pub stage: Stage,
    /// The 32-bit content read for each parameter in this cycle.
    pub values: Seq<u32>,
    /// The on-demand reads that wait, the oldest first.
    pub reads: Seq<ReadRequest>,
    /// The on-demand writes that wait, the oldest first.
    pub writes: Seq<WriteRequest>,
}

impl Model {
    /// Whether the worker is in order: every id, of a parameter and of a
    /// request, has an address; the ranges are the coalescing of the
    /// parameters' ids; there is a value for each parameter; and the range
    /// being read is one of the ranges.
    pub open spec fn wf(self) -> bool {
        &&& forall|k: int| 0 <= k < self.specs.len() ==> addressable(#[trigger] self.specs[k].id)
        &&& coalesced(id_set(self.specs), self.ranges)
        &&& self.ranges.len() <= usize::MAX
        &&& self.values.len() == self.specs.len()
        &&& forall|k: int| 0 <= k < self.reads.len() ==> addressable(#[trigger] self.reads[k].id)
        &&& forall|k: int| 0 <= k < self.writes.len() ==> addressable(#[trigger] self.writes[k].id)
        &&& match self.stage {
            Stage::Bulk(i) => i < self.ranges.len(),
            Stage::Loading(request) => addressable(request.id),
            Stage::Storing(request) => addressable(request.id),
            _ => true,
        }
    }

    /// The state of the connection at this stage.
    pub open spec fn link(self) -> Link {
        match self.stage {
            Stage::Closing => Link::Disconnected,
            Stage::Waiting => Link::Disconnected,
            Stage::Connecting => Link::Connecting,
            _ => Link::Polling,
        }
    }

    /// The action that is under way at this stage.
    pub open spec fn action(self) -> Action {
        match self.stage {
            Stage::Closing => Action::Disconnect,
            Stage::Waiting => Action::Wait { millis: RETRY_DELAY_MS },
            Stage::Connecting => Action::Connect,
            Stage::Bulk(i) => Action::ReadInput {
                address: self.ranges[i as int].offset() as u16,
                count: self.ranges[i as int].count() as u16,
            },
            Stage::Publishing => Action::Publish,
            Stage::Loading(request) => Action::ReadInput {
                address: register_address(request.id) as u16,
                count: 2,
            },
            Stage::Reporting(reading) => Action::Report(reading),
            Stage::Storing(request) => Action::WriteRegisters {
                address: register_address(request.id) as u16,
                reg0: request.reg0,
                reg1: request.reg1,
            },
            Stage::Resting => Action::Wait { millis: CYCLE_DELAY_MS },
        }
    }

    /// The readings of the cycle: one for each parameter, in the order of
    /// the parameters.
    pub open spec fn readings(self) -> Seq<Reading> {
        Seq::new(
            self.specs.len(),
            |k: int| Reading { id: self.specs[k].id, kind: self.specs[k].kind, pattern: self.values[k] },
        )
    }

    /// The worker at another stage, all else the same.
    pub open spec fn at(self, stage: Stage) -> Model {
        Model { stage: stage, ..self }
    }

    /// A cycle begins: every value is 0 again, and the first range is
    /// read; with no range the bulk poll is over at once.
    pub open spec fn begin_cycle(self) -> Model {
        Model {
            stage: if self.ranges.len() == 0 {
                Stage::Publishing
            } else {
                Stage::Bulk(0)
            },
            values: Seq::new(self.specs.len(), |k: int| 0u32),
            ..self
        }
    }

    /// The reply for range `i` is in: each parameter whose id lies in the
    /// range takes its register pair from it; the next range is read, or
    /// the bulk poll is over.
    pub open spec fn store_range(self, i: int, regs: Seq<u16>) -> Model {
        Model {
            stage: if i + 1 < self.ranges.len() {
                Stage::Bulk((i + 1) as usize)
            } else {
                Stage::Publishing
            },
            values: Seq::new(
                self.specs.len(),
                |k: int|
                    if self.ranges[i].holds(self.specs[k].id as int) {
                        pair_at(regs, self.specs[k].id - self.ranges[i].start_id)
                    } else {
                        self.values[k]
                    },
            ),
            ..self
        }
    }

    /// The oldest waiting read is taken up; with none waiting, the writes
    /// have their turn.
    pub open spec fn serve_read(self) -> Model {
        if self.reads.len() > 0 {
            Model { stage: Stage::Loading(self.reads[0]), reads: self.reads.remove(0), ..self }
        } else {
            self.serve_write()
        }
    }

    /// The oldest waiting write is taken up; with none waiting, the cycle
    /// is over.
    pub open spec fn serve_write(self) -> Model {
        if self.writes.len() > 0 {
            Model { stage: Stage::Storing(self.writes[0]), writes: self.writes.remove(0), ..self }
        } else {
            self.at(Stage::Resting)
        }
    }

    /// The worker after the action under way has ended with `event`.
    ///
    /// A wait, a disconnect and the handing out of a snapshot or a value
    /// end in one way only, whatever the event. A connect has succeeded
    /// with `Completed` and failed with anything else. A read or a write
    /// has lost the link with `Failed`; any other event leaves the link
    /// standing, and one that brings no registers stands for a reply
    /// without registers.
    pub open spec fn after(self, event: Event) -> Model {
        match self.stage {
            Stage::Closing => self.at(Stage::Waiting),
            Stage::Waiting => self.at(Stage::Connecting),
            Stage::Connecting => if event is Completed {
                self.begin_cycle()
            } else {
                self.at(Stage::Waiting)
            },
            Stage::Bulk(i) => if event is Failed {
                self.at(Stage::Closing)
            } else {
                self.store_range(i as int, reply(event))
            },
            Stage::Publishing => self.serve_read(),
            Stage::Loading(request) => if event is Failed {
                self.at(Stage::Closing)
            } else {
                self.at(
                    Stage::Reporting(
                        Reading {
                            id: request.id,
                            kind: request.kind,
                            pattern: pair_at(reply(event), 0),
                        },
                    ),
                )
            },
            Stage::Reporting(_) => self.serve_write(),
            Stage::Storing(_) => if event is Failed {
                self.at(Stage::Closing)
            } else {
                self.at(Stage::Resting)
            },
            Stage::Resting => self.begin_cycle(),
        }
    }

    /// The worker after the events of `events`, one after the other.
    pub open spec fn run(self, events: Seq<Event>) -> Model
        decreases events.len(),
    {
        if events.len() == 0 {
            self
        } else {
            self.run(events.drop_last()).after(events.last())
        }
    }
}

/// The worker: the parameters, their ranges, the stage, the values of the
/// cycle and the two queues of on-demand requests.
pub struct Worker {
    specs: Vec<ParameterSpec>,
    ranges: Vec<RegisterRange>,
    stage: Stage,
    values: Vec<u32>,
    reads: Vec<ReadRequest>,
    writes: Vec<WriteRequest>,
}

impl View for Worker {
    type V = Model;

    closed spec fn view(&self) -> Model {
        Model {
            specs: self.specs@,
            ranges: self.ranges@,
            stage: self.stage,
            values: self.values@,
            reads: self.reads@,
            writes: self.writes@,
        }
    }
}

/// Register `j` of a reply; a register that the reply lacks reads as 0.
fn read_register(regs: &Vec<u16>, j: usize) -> (reg: u16)
    ensures
        reg == register_at(regs@, j as int),
{
    if j < regs.len() {
        regs[j]
    } else {
        0
    }
}

impl Worker {
    /// Whether the worker is in order: `new` makes it so, and every
    /// method keeps it so.
    pub open spec fn wf(&self) -> bool {
        self@.wf()
    }

    /// A worker for `specs`, disconnected and about to wait for its first
    /// attempt to connect. A parameter whose id is 0, or too large for its
    /// registers to have an address, is refused: the first such.
    pub fn new(specs: Vec<ParameterSpec>) -> (made: Result<Worker, ConfigError>)
        ensures
            match made {
                Ok(worker) => {
                    &&& worker.wf()
                    &&& worker@.specs == specs@
                    &&& worker@.stage == Stage::Waiting
                    &&& worker@.values == Seq::new(specs@.len(), |k: int| 0u32)
                    &&& worker@.reads.len() == 0
                    &&& worker@.writes.len() == 0
                    &&& forall|k: int| 0 <= k < specs@.len() ==> addressable(#[trigger] specs@[k].id)
                },
                Err(ConfigError::IdOutOfRange { index }) => {
                    &&& index < specs@.len()
                    &&& !addressable(specs@[index as int].id)
                    &&& forall|k: int| 0 <= k < index ==> addressable(#[trigger] specs@[k].id)
                },
            },
    {
        let mut values: Vec<u32> = Vec::new();
        let mut k: usize = 0;
        while k < specs.len()
            invariant
                k <= specs.len(),
                values@ == Seq::new(k as nat, |j: int| 0u32),
                forall|j: int| 0 <= j < k ==> addressable(#[trigger] specs@[j].id),
            decreases specs.len() - k,
        {
            if !crate::params::is_addressable(specs[k].id) {
                return Err(ConfigError::IdOutOfRange { index: k });
            }
            values.push(0);
            k += 1;
        }
        let ranges = crate::ranges::merge_ids(&specs);
        assert(ranges@.len() == ranges.len());
        Ok(
            Worker {
                specs,
                ranges,
                stage: Stage::Waiting,
                values,
                reads: Vec::new(),
                writes: Vec::new(),
            },
        )
    }

    /// The stage at which the worker stands.
    pub fn stage(&self) -> (stage: Stage)
        ensures
            stage == self@.stage,
    {
        self.stage
    }

    /// The state of the connection.
    pub fn link(&self) -> (link: Link)
        ensures
            link == self@.link(),
    {
        match self.stage {
            Stage::Closing => Link::Disconnected,
            Stage::Waiting => Link::Disconnected,
            Stage::Connecting => Link::Connecting,
            _ => Link::Polling,
        }
    }

    /// The configured parameters.
    pub fn specs(&self) -> (specs: &Vec<ParameterSpec>)
        ensures
            specs@ == self@.specs,
    {
        &self.specs
    }

    /// The register ranges of the bulk poll.
    pub fn ranges(&self) -> (ranges: &Vec<RegisterRange>)
        ensures
            ranges@ == self@.ranges,
    {
        &self.ranges
    }

    /// How many on-demand reads wait.
    pub fn pending_reads(&self) -> (n: usize)
        ensures
            n == self@.reads.len(),
    {
        self.reads.len()
    }

    /// How many on-demand writes wait.
    pub fn pending_writes(&self) -> (n: usize)
        ensures
            n == self@.writes.len(),
    {
        self.writes.len()
    }

    /// The action that the driver is to perform now.
    pub fn action(&self) -> (action: Action)
        requires
            self.wf(),
        ensures
            action == self@.action(),
    {
        match self.stage {
            Stage::Closing => Action::Disconnect,
            Stage::Waiting => Action::Wait { millis: RETRY_DELAY_MS },
            Stage::Connecting => Action::Connect,
            Stage::Bulk(i) => {
                proof {
                    lemma_ranges_addressable(self@, i as int);
                }
                Action::ReadInput {
                    address: self.ranges[i].register_offset(),
                    count: self.ranges[i].register_count(),
                }
            },
            Stage::Publishing => Action::Publish,
            Stage::Loading(request) => Action::ReadInput {
                address: crate::params::address_of(request.id),
                count: 2,
            },
            Stage::Reporting(reading) => Action::Report(reading),
            Stage::Storing(request) => Action::WriteRegisters {
                address: crate::params::address_of(request.id),
                reg0: request.reg0,
                reg1: request.reg1,
            },
            Stage::Resting => Action::Wait { millis: CYCLE_DELAY_MS },
        }
    }

    /// The readings of the cycle, one for each parameter, in the order of
    /// the parameters.
    pub fn readings(&self) -> (readings: Vec<Reading>)
        requires
            self.wf(),
        ensures
            readings@ == self@.readings(),
    {
        let mut readings: Vec<Reading> = Vec::new();
        let mut k: usize = 0;
        while k < self.specs.len()
            invariant
                self.wf(),
                k <= self.specs.len(),
                readings@.len() == k,
                forall|j: int| 0 <= j < k ==> readings@[j] == self@.readings()[j],
            decreases self.specs.len() - k,
        {
            readings.push(
                Reading { id: self.specs[k].id, kind: self.specs[k].kind, pattern: self.values[k] },
            );
            k += 1;
        }
        assert(readings@ =~= self@.readings());
        readings
    }

    /// Queues an on-demand read behind those that wait. A request for an
    /// id without an address is refused, and nothing changes.
    pub fn enqueue_read(&mut self, request: ReadRequest) -> (queued: Result<(), RequestError>)
        requires
            old(self).wf(),
        ensures
            final(self).wf(),
            queued.is_ok() == addressable(request.id),
            queued.is_ok() ==> final(self)@ == (Model {
                reads: old(self)@.reads.push(request),
                ..old(self)@
            }),
            queued.is_err() ==> final(self)@ == old(self)@,
    {
        if !crate::params::is_addressable(request.id) {
            return Err(RequestError::IdOutOfRange);
        }
        self.reads.push(request);
        Ok(())
    }

    /// Queues an on-demand write behind those that wait. A request for an
    /// id without an address is refused, and nothing changes.
    pub fn enqueue_write(&mut self, request: WriteRequest) -> (queued: Result<(), RequestError>)
        requires
            old(self).wf(),
        ensures
            final(self).wf(),
            queued.is_ok() == addressable(request.id),
            queued.is_ok() ==> final(self)@ == (Model {
                writes: old(self)@.writes.push(request),
                ..old(self)@
            }),
            queued.is_err() ==> final(self)@ == old(self)@,
    {
        if !crate::params::is_addressable(request.id) {
            return Err(RequestError::IdOutOfRange);
        }
        self.writes.push(request);
        Ok(())
    }

    fn begin_cycle(&mut self)
        requires
            old(self).wf(),
        ensures
            final(self).wf(),
            final(self)@ == old(self)@.begin_cycle(),
    {
        let mut k: usize = 0;
        while k < self.values.len()
            invariant
                old(self).wf(),
                k <= self.values.len(),
                self.values@.len() == old(self).values@.len(),
                forall|j: int| 0 <= j < k ==> self.values@[j] == 0u32,
                self.specs == old(self).specs,
                self.ranges == old(self).ranges,
                self.stage == old(self).stage,
                self.reads == old(self).reads,
                self.writes == old(self).writes,
            decreases self.values.len() - k,
        {
            self.values[k] = 0;
            k += 1;
        }
        self.stage = if self.ranges.len() == 0 {
            Stage::Publishing
        } else {
            Stage::Bulk(0)
        };
        assert(self@ =~= old(self)@.begin_cycle());
    }

    fn store_range(&mut self, i: usize, regs: &Vec<u16>)
        requires
            old(self).wf(),
            i < old(self)@.ranges.len(),
        ensures
            final(self).wf(),
            final(self)@ == old(self)@.store_range(i as int, regs@),
    {
        let range: RegisterRange = self.ranges[i];
        let mut k: usize = 0;
        while k < self.specs.len()
            invariant
                old(self).wf(),
                i < self.ranges@.len(),
                k <= self.specs.len(),
                range == old(self).ranges@[i as int],
                self.values@.len() == self.specs@.len(),
                forall|j: int|
                    0 <= j < k ==> self.values@[j] == old(self)@.store_range(i as int, regs@).values[j],
                forall|j: int| k <= j < self.specs@.len() ==> self.values@[j] == old(self).values@[j],
                self.specs == old(self).specs,
                self.ranges == old(self).ranges,
                self.stage == old(self).stage,
                self.reads == old(self).reads,
                self.writes == old(self).writes,
            decreases self.specs.len() - k,
        {
            let id: u16 = self.specs[k].id;
            if range.contains(id) {
                let n: usize = (id - range.start_id) as usize;
                let lo: u16 = read_register(regs, 2 * n);
                let hi: u16 = read_register(regs, 2 * n + 1);
                self.values[k] = crate::codec::to_int(lo, hi);
            }
            k += 1;
        }
        let count: usize = self.ranges.len();
        self.stage = if i < count - 1 {
            Stage::Bulk(i + 1)
        } else {
            Stage::Publishing
        };
        assert(self@ =~= old(self)@.store_range(i as int, regs@));
    }

    fn serve_write(&mut self)
        requires
            old(self).wf(),
        ensures
            final(self).wf(),
            final(self)@ == old(self)@.serve_write(),
    {
        if self.writes.len() > 0 {
            let request = self.writes.remove(0);
            self.stage = Stage::Storing(request);
        } else {
            self.stage = Stage::Resting;
        }
        assert(self@ =~= old(self)@.serve_write());
    }

    fn serve_read(&mut self)
        requires
            old(self).wf(),
        ensures
            final(self).wf(),
            final(self)@ == old(self)@.serve_read(),
    {
        if self.reads.len() > 0 {
            let request = self.reads.remove(0);
            self.stage = Stage::Loading(request);
            assert(self@ =~= old(self)@.serve_read());
        } else {
            self.serve_write();
        }
    }

    /// Takes the outcome of the action under way and moves on.
    pub fn handle(&mut self, event: &Event)
        requires
            old(self).wf(),
        ensures
            final(self).wf(),
            final(self)@ == old(self)@.after(*event),
    {
        let stage: Stage = self.stage;
        match stage {
            Stage::Closing => {
                self.stage = Stage::Waiting;
            },
            Stage::Waiting => {
                self.stage = Stage::Connecting;
            },
            Stage::Connecting => {
                match event {
                    Event::Completed => {
                        self.begin_cycle();
                    },
                    _ => {
                        self.stage = Stage::Waiting;
                    },
                }
            },
            Stage::Bulk(i) => {
                match event {
                    Event::Failed => {
                        self.stage = Stage::Closing;
                    },
                    Event::Registers(regs) => {
                        self.store_range(i, regs);
                    },
                    _ => {
                        let none: Vec<u16> = Vec::new();
                        self.store_range(i, &none);
                    },
                }
            },
            Stage::Publishing => {
                self.serve_read();
            },
            Stage::Loading(request) => {
                match event {
                    Event::Failed => {
                        self.stage = Stage::Closing;
                    },
                    Event::Registers(regs) => {
                        let lo: u16 = read_register(regs, 0);
                        let hi: u16 = read_register(regs, 1);
                        self.stage = Stage::Reporting(
                            Reading {
                                id: request.id,
                                kind: request.kind,
                                pattern: crate::codec::to_int(lo, hi),
                            },
                        );
                    },
                    _ => {
                        let none: Vec<u16> = Vec::new();
                        let lo: u16 = read_register(&none, 0);
                        let hi: u16 = read_register(&none, 1);
                        self.stage = Stage::Reporting(
                            Reading {
                                id: request.id,
                                kind: request.kind,
                                pattern: crate::codec::to_int(lo, hi),
                            },
                        );
                    },
                }
            },
            Stage::Reporting(_) => {
                self.serve_write();
            },
            Stage::Storing(_) => {
                match event {
                    Event::Failed => {
                        self.stage = Stage::Closing;
                    },
                    _ => {
                        self.stage = Stage::Resting;
                    },
                }
            },
            Stage::Resting => {
                self.begin_cycle();
            },
        }
        assert(self@ =~= old(self)@.after(*event));
    }

    /// Takes the outcome of the action under way, moves on, and says what
    /// is to be done next.
    pub fn step(&mut self, event: &Event) -> (action: Action)
        requires
            old(self).wf(),
        ensures
            final(self).wf(),
            final(self)@ == old(self)@.after(*event),
            action == final(self)@.action(),
    {
        self.handle(event);
        self.action()
    }
}

/// The ranges of a well-formed worker have addressable registers.
pub proof fn lemma_ranges_addressable(model: Model, i: int)
    requires
        model.wf(),
        0 <= i < model.ranges.len(),
    ensures
        model.ranges[i].addressable(),
{
    let range = model.ranges[i];
    assert(range.fits(id_set(model.specs)));
    assert(id_set(model.specs).contains(range.start_id));
    assert(id_set(model.specs).contains(range.end_id));
}

/// Whatever the event, a well-formed worker stays well-formed.
pub proof fn lemma_after_wf(model: Model, event: Event)
    requires
        model.wf(),
    ensures
        model.after(event).wf(),
        model.after(event).specs == model.specs,
        model.after(event).ranges == model.ranges,
{
}

/// A transport failure during the bulk poll disconnects the worker: the
/// connection is closed next, and no snapshot is handed out.
pub proof fn lemma_bulk_failure_disconnects(model: Model, i: usize)
    requires
        model.wf(),
        model.stage == Stage::Bulk(i),
    ensures
        model.after(Event::Failed).link() == Link::Disconnected,
        model.after(Event::Failed).action() == Action::Disconnect,
        model.after(Event::Failed).reads == model.reads,
        model.after(Event::Failed).writes == model.writes,
{
}

/// A snapshot is handed out only when a bulk poll has ended: the step
/// before it took the reply for the last range, which was no transport
/// failure, or began a cycle for which there is no range to read.
pub proof fn lemma_snapshot_only_after_bulk(model: Model, event: Event)
    requires
        model.wf(),
        model.after(event).action() == Action::Publish,
    ensures
        model.after(event).stage == Stage::Publishing,
        model.link() != Link::Disconnected,
        match model.stage {
            Stage::Bulk(i) => i + 1 == model.ranges.len() && !(event is Failed),
            Stage::Resting => model.ranges.len() == 0,
            Stage::Connecting => model.ranges.len() == 0 && event is Completed,
            _ => false,
        },
{
    lemma_after_wf(model, event);
    match model.after(event).stage {
        Stage::Bulk(i) => {
            lemma_ranges_addressable(model.after(event), i as int);
        },
        _ => {},
    }
}

/// An exception in reply to a bulk read leaves the worker polling: the
/// parameters of that range read as 0, the others keep their values, and
/// the cycle goes on with the next range or with the snapshot.
pub proof fn lemma_bulk_exception_goes_on(model: Model, i: usize)
    requires
        model.wf(),
        model.stage == Stage::Bulk(i),
    ensures
        model.after(Event::Exception).link() == Link::Polling,
        model.after(Event::Exception).stage == (if i + 1 < model.ranges.len() {
            Stage::Bulk((i + 1) as usize)
        } else {
            Stage::Publishing
        }),
        forall|k: int|
            0 <= k < model.specs.len() ==> #[trigger] model.after(Event::Exception).values[k] == (
            if model.ranges[i as int].holds(model.specs[k].id as int) {
                0u32
            } else {
                model.values[k]
            }),
{
    assert(join_halves(0u16, 0u16) == 0u32) by (bit_vector);
}

/// A bulk poll in which no transport failure occurs ends with a snapshot:
/// from the read of range `i` on, one event for each range that is left
/// leads to the stage at which the snapshot is handed out, with the
/// queues untouched.
pub proof fn lemma_bulk_poll_completes(model: Model, i: usize, events: Seq<Event>)
    requires
        model.wf(),
        model.stage == Stage::Bulk(i),
        events.len() <= model.ranges.len() - i,
        forall|j: int| 0 <= j < events.len() ==> !(#[trigger] events[j] is Failed),
    ensures
        model.run(events).wf(),
        model.run(events).specs == model.specs,
        model.run(events).ranges == model.ranges,
        model.run(events).reads == model.reads,
        model.run(events).writes == model.writes,
        model.run(events).stage == (if i + events.len() < model.ranges.len() {
            Stage::Bulk((i + events.len()) as usize)
        } else {
            Stage::Publishing
        }),
    decreases events.len(),
{
    if events.len() > 0 {
        let shorter = events.drop_last();
        assert forall|j: int| 0 <= j < shorter.len() implies !(#[trigger] shorter[j] is Failed) by {
            assert(shorter[j] == events[j]);
        }
        lemma_bulk_poll_completes(model, i, shorter);
        let before = model.run(shorter);
        let at: usize = (i + shorter.len()) as usize;
        assert(before.stage == Stage::Bulk(at));
        assert(!(events[events.len() - 1] is Failed));
        lemma_bulk_step(before, at, events.last());
        assert(model.run(events) == before.after(events.last()));
    }
}

/// A reply to a bulk read that is no transport failure leads to the next
/// range, or to the snapshot after the last, with the queues untouched.
proof fn lemma_bulk_step(model: Model, i: usize, event: Event)
    requires
        model.wf(),
        model.stage == Stage::Bulk(i),
        !(event is Failed),
    ensures
        model.after(event).wf(),
        model.after(event).specs == model.specs,
        model.after(event).ranges == model.ranges,
        model.after(event).reads == model.reads,
        model.after(event).writes == model.writes,
        model.after(event).stage == (if i + 1 < model.ranges.len() {
            Stage::Bulk((i + 1) as usize)
        } else {
            Stage::Publishing
        }),
{
}

/// While the worker is not polling, no request leaves the queues.
pub proof fn lemma_queues_wait_while_down(model: Model, event: Event)
    requires
        model.wf(),
        model.link() != Link::Polling,
    ensures
        model.after(event).reads == model.reads,
        model.after(event).writes == model.writes,
{
}

/// A run of events is its first event followed by the run of the rest.
pub proof fn lemma_run_front(model: Model, events: Seq<Event>)
    requires
        events.len() > 0,
    ensures
        model.run(events) == model.after(events[0]).run(events.drop_first()),
    decreases events.len(),
{
    if events.len() == 1 {
        assert(events.drop_last().len() == 0);
        assert(events.drop_first().len() == 0);
        assert(model.run(events.drop_last()) == model);
    } else {
        lemma_run_front(model, events.drop_last());
        assert(events.drop_last().drop_first() =~= events.drop_first().drop_last());
        assert(events.drop_last()[0] == events[0]);
        assert(events.drop_first().last() == events.last());
    }
}

/// The requests that wait when the connection is made are served in the
/// first cycle: once the connection stands, the bulk poll has run without
/// a transport failure and the snapshot is handed out, the oldest read
/// that waits is the one sent, and it has left the queue; where no read
/// waits, the oldest write is.
pub proof fn lemma_first_cycle_serves(model: Model, events: Seq<Event>)
    requires
        model.wf(),
        model.stage == Stage::Connecting,
        events.len() == model.ranges.len() + 2,
        events[0] is Completed,
        forall|j: int| 0 <= j < events.len() ==> !(#[trigger] events[j] is Failed),
    ensures
        model.reads.len() > 0 ==> model.run(events).stage == Stage::Loading(model.reads[0])
            && model.run(events).reads == model.reads.remove(0) && model.run(events).writes
            == model.writes,
        model.reads.len() == 0 && model.writes.len() > 0 ==> model.run(events).stage
            == Stage::Storing(model.writes[0]) && model.run(events).writes == model.writes.remove(0),
        model.reads.len() == 0 && model.writes.len() == 0 ==> model.run(events).stage
            == Stage::Resting,
{
    let begun = model.after(events[0]);
    let bulk = events.drop_last().drop_first();
    lemma_after_wf(model, events[0]);
    lemma_run_front(model, events.drop_last());
    assert(events.drop_last()[0] == events[0]);
    assert(model.run(events.drop_last()) == begun.run(bulk));
    if model.ranges.len() > 0 {
        lemma_bulk_poll_completes(begun, 0, bulk);
    } else {
        assert(bulk.len() == 0);
        assert(begun.run(bulk) == begun);
    }
    assert(begun.run(bulk).stage == Stage::Publishing);
}

/// No request is dropped: a step leaves each queue as it was, or takes
/// its oldest request to send it.
pub proof fn lemma_requests_leave_only_to_be_sent(model: Model, event: Event)
    requires
        model.wf(),
    ensures
        model.after(event).reads == model.reads || (model.reads.len() > 0 && model.after(
            event,
        ).reads == model.reads.remove(0) && model.after(event).action() == (Action::ReadInput {
            address: register_address(model.reads[0].id) as u16,
            count: 2,
        })),
        model.after(event).writes == model.writes || (model.writes.len() > 0 && model.after(
            event,
        ).writes == model.writes.remove(0) && model.after(event).action()
            == (Action::WriteRegisters {
            address: register_address(model.writes[0].id) as u16,
            reg0: model.writes[0].reg0,
            reg1: model.writes[0].reg1,
        })),
{
}

/// What a snapshot holds: after a bulk poll without a transport failure,
/// the value of each parameter is the register pair at the parameter's
/// place in the reply for the range in which its id lies; registers that
/// the reply lacks, and those of a range answered by an exception, read
/// as 0.
pub proof fn lemma_snapshot_values(model: Model, events: Seq<Event>, k: int, j: int)
    requires
        model.wf(),
        model.stage == Stage::Bulk(0),
        events.len() <= model.ranges.len(),
        forall|n: int| 0 <= n < events.len() ==> !(#[trigger] events[n] is Failed),
        0 <= k < model.specs.len(),
        0 <= j < events.len(),
        model.ranges[j].holds(model.specs[k].id as int),
    ensures
        model.run(events).values.len() == model.specs.len(),
        model.run(events).values[k] == pair_at(
            reply(events[j]),
            model.specs[k].id - model.ranges[j].start_id,
        ),
    decreases events.len(),
{
    let shorter = events.drop_last();
    let last = events.len() - 1;
    assert forall|n: int| 0 <= n < shorter.len() implies !(#[trigger] shorter[n] is Failed) by {
        assert(shorter[n] == events[n]);
    }
    lemma_bulk_poll_completes(model, 0, shorter);
    let before = model.run(shorter);
    assert(before.stage == Stage::Bulk(last as usize));
    assert(!(events[last] is Failed));
    assert(model.run(events) == before.store_range(last, reply(events[last])));
    if j < last {
        lemma_snapshot_values(model, shorter, k, j);
        assert(shorter[j] == events[j]);
        crate::ranges::lemma_ranges_disjoint(id_set(model.specs), model.ranges, j, last);
    }
}

} // verus!
