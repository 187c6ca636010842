use modbus_poller::codec::Float32;
use modbus_poller::params::{Kind, ParameterSpec, Reading};
use modbus_poller::worker::{
    Action, ConfigError, Event, Link, ReadRequest, RequestError, Stage, Worker, WriteRequest,
};

fn spec(id: u16, kind: Kind) -> ParameterSpec {
    ParameterSpec { id, name: format!("p{}", id), kind }
}

fn sample() -> Worker {
    Worker::new(vec![
        spec(5, Kind::Float),
        spec(1, Kind::Bitfield),
        spec(2, Kind::Float),
        spec(60, Kind::Bitfield),
        spec(3, Kind::Bitfield),
    ])
    .unwrap()
}

fn connect(worker: &mut Worker) {
    assert_eq!(worker.action(), Action::Wait { millis: 1000 });
    assert_eq!(worker.step(&Event::Completed), Action::Connect);
    worker.handle(&Event::Completed);
}

fn patterns(worker: &Worker) -> Vec<u32> {
    worker.readings().iter().map(|r| r.pattern).collect()
}

#[test]
fn a_new_worker_waits_before_connecting() {
    let worker = sample();
    assert_eq!(worker.stage(), Stage::Waiting);
    assert_eq!(worker.link(), Link::Disconnected);
    assert_eq!(worker.action(), Action::Wait { millis: 1000 });
    assert_eq!(worker.pending_reads(), 0);
    assert_eq!(worker.pending_writes(), 0);
    assert_eq!(worker.specs().len(), 5);
    let got: Vec<(u16, u16)> = worker.ranges().iter().map(|r| (r.start_id, r.end_id)).collect();
    assert_eq!(got, vec![(1, 5), (60, 60)]);
    assert_eq!(patterns(&worker), vec![0, 0, 0, 0, 0]);
}

#[test]
fn ids_without_an_address_are_refused() {
    let made = Worker::new(vec![spec(1, Kind::Float), spec(0, Kind::Float), spec(40000, Kind::Float)]);
    assert_eq!(made.err(), Some(ConfigError::IdOutOfRange { index: 1 }));
    let made = Worker::new(vec![spec(1, Kind::Float), spec(32769, Kind::Float)]);
    assert_eq!(made.err(), Some(ConfigError::IdOutOfRange { index: 1 }));
    assert!(Worker::new(vec![spec(32768, Kind::Float)]).is_ok());
}

#[test]
fn a_failed_connect_is_tried_again_after_the_delay() {
    let mut worker = sample();
    assert_eq!(worker.step(&Event::Completed), Action::Connect);
    assert_eq!(worker.link(), Link::Connecting);
    assert_eq!(worker.step(&Event::Failed), Action::Wait { millis: 1000 });
    assert_eq!(worker.link(), Link::Disconnected);
    assert_eq!(worker.step(&Event::Completed), Action::Connect);
}

#[test]
fn a_full_cycle() {
    let mut worker = sample();
    connect(&mut worker);
    assert_eq!(worker.link(), Link::Polling);
    assert_eq!(worker.action(), Action::ReadInput { address: 0, count: 10 });
    let reply = vec![0x0005, 0x8000, 0x0000, 0x4048, 7, 0, 0xAAAA, 0xBBBB, 0x1234, 0xABCD];
    assert_eq!(
        worker.step(&Event::Registers(reply)),
        Action::ReadInput { address: 118, count: 2 }
    );
    assert_eq!(worker.step(&Event::Registers(vec![1, 2])), Action::Publish);
    assert_eq!(
        worker.readings(),
        vec![
            Reading { id: 5, kind: Kind::Float, pattern: 0xABCD_1234 },
            Reading { id: 1, kind: Kind::Bitfield, pattern: 0x8000_0005 },
            Reading { id: 2, kind: Kind::Float, pattern: 0x4048_0000 },
            Reading { id: 60, kind: Kind::Bitfield, pattern: 0x0002_0001 },
            Reading { id: 3, kind: Kind::Bitfield, pattern: 7 },
        ]
    );
    assert_eq!(worker.step(&Event::Completed), Action::Wait { millis: 500 });
    assert_eq!(worker.stage(), Stage::Resting);
    assert_eq!(worker.step(&Event::Completed), Action::ReadInput { address: 0, count: 10 });
    assert_eq!(patterns(&worker), vec![0, 0, 0, 0, 0]);
}

#[test]
fn an_exception_reads_as_zero_and_the_cycle_goes_on() {
    let mut worker = sample();
    connect(&mut worker);
    assert_eq!(worker.step(&Event::Exception), Action::ReadInput { address: 118, count: 2 });
    assert_eq!(worker.link(), Link::Polling);
    assert_eq!(worker.step(&Event::Registers(vec![9, 0])), Action::Publish);
    assert_eq!(patterns(&worker), vec![0, 0, 0, 9, 0]);

    worker.handle(&Event::Completed);
    worker.handle(&Event::Completed);
    let reply = vec![1, 0, 2, 0, 3, 0, 4, 0, 5, 0];
    assert_eq!(worker.step(&Event::Registers(reply)), Action::ReadInput { address: 118, count: 2 });
    assert_eq!(worker.step(&Event::Exception), Action::Publish);
    assert_eq!(worker.link(), Link::Polling);
    assert_eq!(patterns(&worker), vec![5, 1, 2, 0, 3]);
}

#[test]
fn a_transport_failure_in_the_bulk_poll_disconnects_without_a_snapshot() {
    let mut worker = sample();
    connect(&mut worker);
    worker.handle(&Event::Registers(vec![0; 10]));
    assert_eq!(worker.step(&Event::Failed), Action::Disconnect);
    assert_eq!(worker.link(), Link::Disconnected);
    assert_eq!(worker.stage(), Stage::Closing);
    assert_eq!(worker.step(&Event::Completed), Action::Wait { millis: 1000 });
    assert_eq!(worker.step(&Event::Completed), Action::Connect);
    assert_eq!(worker.step(&Event::Completed), Action::ReadInput { address: 0, count: 10 });
}

#[test]
fn a_failed_disconnect_still_leads_to_the_retry() {
    let mut worker = sample();
    connect(&mut worker);
    assert_eq!(worker.step(&Event::Failed), Action::Disconnect);
    assert_eq!(worker.step(&Event::Failed), Action::Wait { millis: 1000 });
}

#[test]
fn a_short_reply_reads_missing_registers_as_zero() {
    let mut worker = sample();
    connect(&mut worker);
    worker.handle(&Event::Registers(vec![1, 0, 2]));
    worker.handle(&Event::Registers(vec![]));
    assert_eq!(patterns(&worker), vec![0, 1, 2, 0, 0]);
}

#[test]
fn requests_queued_while_disconnected_are_served_in_the_first_cycle() {
    let mut worker = sample();
    assert_eq!(worker.enqueue_read(ReadRequest { id: 9, kind: Kind::Float }), Ok(()));
    assert_eq!(worker.enqueue_write(WriteRequest { id: 4, reg0: 0x0000, reg1: 0x4048 }), Ok(()));
    assert_eq!(worker.step(&Event::Completed), Action::Connect);
    assert_eq!(worker.step(&Event::Failed), Action::Wait { millis: 1000 });
    assert_eq!(worker.enqueue_read(ReadRequest { id: 10, kind: Kind::Bitfield }), Ok(()));
    assert_eq!(worker.pending_reads(), 2);
    assert_eq!(worker.pending_writes(), 1);
    assert_eq!(worker.step(&Event::Completed), Action::Connect);
    assert_eq!(worker.step(&Event::Completed), Action::ReadInput { address: 0, count: 10 });
    assert_eq!(worker.step(&Event::Exception), Action::ReadInput { address: 118, count: 2 });
    assert_eq!(worker.step(&Event::Exception), Action::Publish);
    assert_eq!(worker.pending_reads(), 2);
    assert_eq!(worker.step(&Event::Completed), Action::ReadInput { address: 16, count: 2 });
    assert_eq!(worker.pending_reads(), 1);
    assert_eq!(
        worker.step(&Event::Registers(vec![0x0000, 0x4048])),
        Action::Report(Reading { id: 9, kind: Kind::Float, pattern: 0x4048_0000 })
    );
    assert_eq!(
        worker.step(&Event::Completed),
        Action::WriteRegisters { address: 6, reg0: 0x0000, reg1: 0x4048 }
    );
    assert_eq!(worker.pending_writes(), 0);
    assert_eq!(worker.step(&Event::Completed), Action::Wait { millis: 500 });
    assert_eq!(worker.pending_reads(), 1);
}

#[test]
fn one_read_and_one_write_are_served_in_a_cycle() {
    let mut worker = Worker::new(vec![]).unwrap();
    for id in [3u16, 4, 5] {
        worker.enqueue_read(ReadRequest { id, kind: Kind::Bitfield }).unwrap();
        worker.enqueue_write(WriteRequest::from_int(id, 0x0002_0001)).unwrap();
    }
    connect(&mut worker);
    for (n, id) in [3u16, 4, 5].iter().enumerate() {
        assert_eq!(worker.action(), Action::Publish);
        assert_eq!(worker.readings(), vec![]);
        assert_eq!(
            worker.step(&Event::Completed),
            Action::ReadInput { address: (id - 1) * 2, count: 2 }
        );
        assert_eq!(
            worker.step(&Event::Registers(vec![*id, 0])),
            Action::Report(Reading { id: *id, kind: Kind::Bitfield, pattern: *id as u32 })
        );
        assert_eq!(
            worker.step(&Event::Completed),
            Action::WriteRegisters { address: (id - 1) * 2, reg0: 1, reg1: 2 }
        );
        assert_eq!(worker.pending_reads(), 2 - n);
        assert_eq!(worker.pending_writes(), 2 - n);
        assert_eq!(worker.step(&Event::Completed), Action::Wait { millis: 500 });
        worker.handle(&Event::Completed);
    }
    assert_eq!(worker.action(), Action::Publish);
    assert_eq!(worker.step(&Event::Completed), Action::Wait { millis: 500 });
}

#[test]
fn an_exception_to_an_on_demand_read_reports_zero() {
    let mut worker = Worker::new(vec![]).unwrap();
    worker.enqueue_read(ReadRequest { id: 2, kind: Kind::Float }).unwrap();
    connect(&mut worker);
    assert_eq!(worker.step(&Event::Completed), Action::ReadInput { address: 2, count: 2 });
    assert_eq!(
        worker.step(&Event::Exception),
        Action::Report(Reading { id: 2, kind: Kind::Float, pattern: 0 })
    );
    assert_eq!(worker.link(), Link::Polling);
}

#[test]
fn a_transport_failure_in_an_on_demand_read_disconnects() {
    let mut worker = Worker::new(vec![]).unwrap();
    worker.enqueue_read(ReadRequest { id: 2, kind: Kind::Float }).unwrap();
    worker.enqueue_write(WriteRequest { id: 2, reg0: 1, reg1: 1 }).unwrap();
    connect(&mut worker);
    worker.handle(&Event::Completed);
    assert_eq!(worker.step(&Event::Failed), Action::Disconnect);
    assert_eq!(worker.link(), Link::Disconnected);
    assert_eq!(worker.pending_writes(), 1);
}

#[test]
fn an_exception_to_a_write_is_not_fatal_and_a_failure_is() {
    let mut worker = Worker::new(vec![]).unwrap();
    worker.enqueue_write(WriteRequest { id: 2, reg0: 1, reg1: 1 }).unwrap();
    worker.enqueue_write(WriteRequest { id: 3, reg0: 1, reg1: 1 }).unwrap();
    connect(&mut worker);
    assert_eq!(
        worker.step(&Event::Completed),
        Action::WriteRegisters { address: 2, reg0: 1, reg1: 1 }
    );
    assert_eq!(worker.step(&Event::Exception), Action::Wait { millis: 500 });
    assert_eq!(worker.link(), Link::Polling);
    assert_eq!(worker.step(&Event::Completed), Action::Publish);
    assert_eq!(
        worker.step(&Event::Completed),
        Action::WriteRegisters { address: 4, reg0: 1, reg1: 1 }
    );
    assert_eq!(worker.step(&Event::Failed), Action::Disconnect);
}

#[test]
fn requests_for_ids_without_an_address_are_refused() {
    let mut worker = sample();
    assert_eq!(
        worker.enqueue_read(ReadRequest { id: 0, kind: Kind::Float }),
        Err(RequestError::IdOutOfRange)
    );
    assert_eq!(
        worker.enqueue_write(WriteRequest { id: 32769, reg0: 0, reg1: 0 }),
        Err(RequestError::IdOutOfRange)
    );
    assert_eq!(worker.pending_reads(), 0);
    assert_eq!(worker.pending_writes(), 0);
    assert_eq!(worker.enqueue_read(ReadRequest { id: 32768, kind: Kind::Float }), Ok(()));
    assert_eq!(worker.pending_reads(), 1);
}

#[test]
fn write_requests_are_built_through_the_codec() {
    assert_eq!(
        WriteRequest::from_float(1, Float32 { bits: 3.125f32.to_bits() }),
        WriteRequest { id: 1, reg0: 0x0000, reg1: 0x4048 }
    );
    assert_eq!(
        WriteRequest::from_int(7, 0xABCD_1234),
        WriteRequest { id: 7, reg0: 0x1234, reg1: 0xABCD }
    );
    let mut flags = [false; 32];
    flags[1] = true;
    flags[17] = true;
    assert_eq!(WriteRequest::from_flags(9, &flags), WriteRequest { id: 9, reg0: 2, reg1: 2 });
    assert_eq!(
        WriteRequest::from_flags(9, &[true; 32]),
        WriteRequest { id: 9, reg0: 0xFFFF, reg1: 0xFFFF }
    );
}
