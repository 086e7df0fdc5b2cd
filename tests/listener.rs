use std::cell::RefCell;
use std::rc::Rc;

use internet2::presentation;
use lnp::p2p::bolt::Messages;
use peer_listener::{Handler, Listener};

#[derive(Clone, Debug, PartialEq)]
enum TestError {
    Transport(presentation::Error),
    App(u8),
}

impl From<presentation::Error> for TestError {
    fn from(err: presentation::Error) -> Self {
        TestError::Transport(err)
    }
}

#[derive(Clone, Debug, PartialEq)]
enum Event {
    Handle(Vec<u8>),
    HandleErr(TestError),
}

type Log = Rc<RefCell<Vec<Event>>>;

/// Records every invocation; `handle` fails with `App(tag)` on the
/// payloads listed in `failing`, and `handle_err` escalates the errors
/// that `escalate` selects, as `App(100 + tag)` for application errors.
struct Recorder {
    log: Log,
    failing: Vec<u8>,
    escalate: fn(&TestError) -> bool,
}

impl Handler for Recorder {
    type Error = TestError;

    fn handle(&mut self, message: Messages) -> Result<(), TestError> {
        let payload = match message {
            Messages::Pong(payload) => payload,
            _ => vec![],
        };
        self.log.borrow_mut().push(Event::Handle(payload.clone()));
        match payload.first() {
            Some(tag) if self.failing.contains(tag) => Err(TestError::App(*tag)),
            _ => Ok(()),
        }
    }

    fn handle_err(&mut self, error: TestError) -> Result<(), TestError> {
        self.log.borrow_mut().push(Event::HandleErr(error.clone()));
        if (self.escalate)(&error) {
            match error {
                TestError::App(tag) => Err(TestError::App(100 + tag)),
                other => Err(other),
            }
        } else {
            Ok(())
        }
    }
}

fn never(_: &TestError) -> bool {
    false
}

fn always(_: &TestError) -> bool {
    true
}

fn recorder(failing: Vec<u8>, escalate: fn(&TestError) -> bool) -> (Listener<Recorder>, Log) {
    let log: Log = Rc::new(RefCell::new(Vec::new()));
    let handler = Recorder { log: log.clone(), failing, escalate };
    (Listener::with(handler), log)
}

fn msg(tag: u8) -> Result<Messages, presentation::Error> {
    Ok(Messages::Pong(vec![tag]))
}

#[test]
fn scenario_a_three_messages_handled_in_order() {
    let (mut listener, log) = recorder(vec![], always);
    let result = listener.drain(vec![msg(1), msg(2), msg(3)]);
    assert!(result.is_ok());
    assert!(!listener.terminated());
    assert_eq!(
        *log.borrow(),
        vec![Event::Handle(vec![1]), Event::Handle(vec![2]), Event::Handle(vec![3])]
    );
}

#[test]
fn scenario_b_absorbed_transport_error_keeps_running() {
    let (mut listener, log) = recorder(vec![], never);
    if let Err(err) = listener.drain(vec![msg(1), Err(presentation::Error::NoData)]) {
        panic!("loop ended with {:?}", err);
    }
    assert!(!listener.terminated());
    assert_eq!(
        *log.borrow(),
        vec![
            Event::Handle(vec![1]),
            Event::HandleErr(TestError::Transport(presentation::Error::NoData)),
        ]
    );
    // the loop still takes the next receive outcome
    assert!(listener.step(msg(4)).is_ok());
    assert_eq!(log.borrow().last(), Some(&Event::Handle(vec![4])));
    assert_eq!(log.borrow().len(), 3);
}

#[test]
fn scenario_c_escalated_application_error_ends_loop() {
    let (mut listener, log) = recorder(vec![1], always);
    let result = listener.drain(vec![msg(1)]);
    assert_eq!(result.err(), Some(TestError::App(101)));
    assert!(listener.terminated());
    assert_eq!(
        *log.borrow(),
        vec![Event::Handle(vec![1]), Event::HandleErr(TestError::App(1))]
    );
}

#[test]
fn every_message_handled_once_in_arrival_order() {
    let (mut listener, log) = recorder(vec![2, 4], never);
    let incoming = vec![msg(1), msg(2), msg(3), msg(4), msg(5)];
    assert!(listener.drain(incoming).is_ok());
    let handled: Vec<Vec<u8>> = log
        .borrow()
        .iter()
        .filter_map(|e| match e {
            Event::Handle(p) => Some(p.clone()),
            _ => None,
        })
        .collect();
    assert_eq!(handled, vec![vec![1], vec![2], vec![3], vec![4], vec![5]]);
}

#[test]
fn receive_failure_skips_handle() {
    let (mut listener, log) = recorder(vec![], never);
    assert!(listener.step(Err(presentation::Error::InvalidValue)).is_ok());
    assert_eq!(
        *log.borrow(),
        vec![Event::HandleErr(TestError::Transport(presentation::Error::InvalidValue))]
    );
}

#[test]
fn escalated_receive_failure_is_returned() {
    let (mut listener, log) = recorder(vec![], always);
    let result = listener.step(Err(presentation::Error::BadLengthDescriptor));
    assert_eq!(
        result.err(),
        Some(TestError::Transport(presentation::Error::BadLengthDescriptor))
    );
    assert_eq!(log.borrow().len(), 1);
}

#[test]
fn absorbed_application_error_moves_to_next_message() {
    let (mut listener, log) = recorder(vec![1], never);
    assert!(listener.drain(vec![msg(1), msg(2)]).is_ok());
    assert_eq!(
        *log.borrow(),
        vec![
            Event::Handle(vec![1]),
            Event::HandleErr(TestError::App(1)),
            Event::Handle(vec![2]),
        ]
    );
}

#[test]
fn escalation_stops_before_later_outcomes() {
    let (mut listener, log) = recorder(vec![], always);
    let result = listener.drain(vec![msg(1), Err(presentation::Error::NoData), msg(3)]);
    assert_eq!(result.err(), Some(TestError::Transport(presentation::Error::NoData)));
    assert!(listener.terminated());
    assert_eq!(
        *log.borrow(),
        vec![
            Event::Handle(vec![1]),
            Event::HandleErr(TestError::Transport(presentation::Error::NoData)),
        ]
    );
}

#[test]
fn successful_message_needs_no_recovery() {
    let (mut listener, log) = recorder(vec![], always);
    assert!(listener.step(msg(7)).is_ok());
    assert_eq!(*log.borrow(), vec![Event::Handle(vec![7])]);
}

#[test]
fn new_listener_is_running_and_invokes_nothing() {
    let (listener, log) = recorder(vec![], always);
    assert!(!listener.terminated());
    assert!(log.borrow().is_empty());
}

#[test]
fn empty_input_invokes_nothing() {
    let (mut listener, log) = recorder(vec![], always);
    assert!(listener.drain(vec![]).is_ok());
    assert!(log.borrow().is_empty());
}
