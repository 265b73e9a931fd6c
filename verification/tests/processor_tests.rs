use std::cell::RefCell;
use std::rc::Rc;

use rpm::RPMError;
use rpm::header::{Entry, Header, TagDomain, RPMTAG_EPOCH, TYPE_INT32};
use rpm::lead::Lead;
use rpm::package::RPMPackageMetadata;
use rpm::processor::{ProcessDestination, ProcessVerifier, RPMProcessor};

struct CollectSink {
    data: Rc<RefCell<Vec<u8>>>,
    fail_verify: bool,
    cap_per_write: Option<usize>,
}

impl ProcessDestination for CollectSink {
    fn accepted(&self) -> vstd::seq::Seq<u8> {
        panic!()
    }

    fn write_chunk(&mut self, buf: &[u8]) -> Result<usize, RPMError> {
        let take = match self.cap_per_write {
            Some(cap) if cap < buf.len() => cap,
            _ => buf.len(),
        };
        self.data.borrow_mut().extend_from_slice(&buf[..take]);
        Ok(take)
    }
}

impl ProcessVerifier for CollectSink {
    fn verify(&self, _metadata: &RPMPackageMetadata) -> Result<(), RPMError> {
        if self.fail_verify {
            Err(RPMError::Crypto)
        } else {
            Ok(())
        }
    }
}

fn sink(data: &Rc<RefCell<Vec<u8>>>) -> CollectSink {
    CollectSink { data: Rc::clone(data), fail_verify: false, cap_per_write: None }
}

fn fixture_metadata() -> RPMPackageMetadata {
    RPMPackageMetadata {
        lead: Lead::new(b"proc-1.0.0", 0, 1, 1, 5),
        signature: Header { domain: TagDomain::Signature, entries: vec![], store: vec![] },
        header: Header {
            domain: TagDomain::Main,
            entries: vec![Entry { tag: RPMTAG_EPOCH, typ: TYPE_INT32, offset: 0, count: 1 }],
            store: vec![0, 0, 0, 1],
        },
    }
}

#[test]
fn fanout_delivers_every_byte_to_every_sink_once_in_order() {
    let metadata = fixture_metadata();
    let mut expected: Vec<u8> = Vec::new();
    metadata.write(&mut expected);
    let chunks: Vec<Vec<u8>> = vec![vec![1], vec![2, 3, 4], vec![], vec![5, 6]];
    for c in &chunks {
        expected.extend_from_slice(c);
    }

    let v1 = Rc::new(RefCell::new(Vec::new()));
    let v2 = Rc::new(RefCell::new(Vec::new()));
    let d1 = Rc::new(RefCell::new(Vec::new()));
    let d2 = Rc::new(RefCell::new(Vec::new()));
    let mut proc = RPMProcessor::new()
        .add_verifier(sink(&v1))
        .add_verifier(sink(&v2))
        .add_destination(sink(&d1))
        .add_destination(sink(&d2));
    proc.process(&metadata, &chunks).expect("all sinks accept, all verifiers pass");

    assert_eq!(*v1.borrow(), expected);
    assert_eq!(*v2.borrow(), expected);
    assert_eq!(*d1.borrow(), expected);
    assert_eq!(*d2.borrow(), expected);
}

#[test]
fn failing_verifier_fails_the_whole_process() {
    let metadata = fixture_metadata();
    let good = Rc::new(RefCell::new(Vec::new()));
    let bad = Rc::new(RefCell::new(Vec::new()));
    let mut proc = RPMProcessor::new()
        .add_verifier(sink(&good))
        .add_verifier(CollectSink { data: Rc::clone(&bad), fail_verify: true, cap_per_write: None })
        .add_destination(sink(&Rc::new(RefCell::new(Vec::new()))));
    assert_eq!(proc.process(&metadata, &vec![vec![7, 8]]).unwrap_err(), RPMError::Crypto);
}

#[test]
fn write_chunk_reports_minimum_across_destinations() {
    let capped = Rc::new(RefCell::new(Vec::new()));
    let full = Rc::new(RefCell::new(Vec::new()));
    let mut proc: RPMProcessor<CollectSink, CollectSink> = RPMProcessor::new()
        .add_destination(CollectSink {
            data: Rc::clone(&capped),
            fail_verify: false,
            cap_per_write: Some(3),
        })
        .add_destination(sink(&full));
    // The capped destination accepts 3 of 5 bytes; the last one accepts
    // all 5. The reported count must be the minimum, not the last.
    let n = proc.write_chunk(&[1, 2, 3, 4, 5]).expect("no sink errored");
    assert_eq!(n, 3);
    assert_eq!(*capped.borrow(), vec![1, 2, 3]);
    assert_eq!(*full.borrow(), vec![1, 2, 3, 4, 5]);
}

#[test]
fn write_chunk_with_no_destinations_reports_full_length() {
    let v = Rc::new(RefCell::new(Vec::new()));
    let mut proc: RPMProcessor<CollectSink, CollectSink> =
        RPMProcessor::new().add_verifier(sink(&v));
    let n = proc.write_chunk(&[9, 9, 9]).expect("verifier accepts");
    assert_eq!(n, 3);
    assert_eq!(*v.borrow(), vec![9, 9, 9]);
}

#[test]
fn verifier_short_write_is_io_error() {
    let v = Rc::new(RefCell::new(Vec::new()));
    let mut proc: RPMProcessor<CollectSink, CollectSink> = RPMProcessor::new().add_verifier(
        CollectSink { data: Rc::clone(&v), fail_verify: false, cap_per_write: Some(1) },
    );
    assert_eq!(proc.write_chunk(&[1, 2]).unwrap_err(), RPMError::Io);
}

#[test]
fn process_with_no_sinks_succeeds() {
    let metadata = fixture_metadata();
    let mut proc: RPMProcessor<CollectSink, CollectSink> = RPMProcessor::new();
    proc.process(&metadata, &vec![vec![1, 2, 3]]).expect("nothing to deliver to, nothing to judge");
}
