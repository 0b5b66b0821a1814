use ethy_gadget::witness_record::{Witness, WitnessRecord};

fn authority(tag: u8) -> [u8; 33] {
    let mut a = [0u8; 33];
    a[0] = tag;
    a
}

fn digest(tag: u8) -> [u8; 32] {
    let mut d = [0u8; 32];
    d[0] = tag;
    d
}

fn signature(tag: u8) -> [u8; 65] {
    let mut s = [0u8; 65];
    s[0] = tag;
    s
}

fn witness(event_id: u64, d: [u8; 32], a: [u8; 33], s: [u8; 65]) -> Witness {
    Witness {
        event_id,
        digest: d,
        authority_id: a,
        signature: s,
    }
}

fn three_validator_record() -> WitnessRecord {
    let mut record = WitnessRecord::new();
    record.set_validators(vec![authority(1), authority(2), authority(3)]);
    record
}

#[test]
fn empty_record_has_nothing() {
    let record = WitnessRecord::new();
    assert!(!record.has_consensus(7, &digest(1), 1));
    assert!(record.signatures_for(7, &digest(1)).is_none());
    assert!(record.event_metadata(7).is_none());
    assert_eq!(record.resolve(&authority(1)), None);
}

#[test]
fn default_record_is_empty() {
    let record = WitnessRecord::default();
    assert!(!record.has_consensus(1, &digest(1), 1));
    assert!(record.signatures_for(1, &digest(1)).is_none());
}

#[test]
fn resolve_returns_ordinal_positions() {
    let record = three_validator_record();
    assert_eq!(record.resolve(&authority(1)), Some(0));
    assert_eq!(record.resolve(&authority(2)), Some(1));
    assert_eq!(record.resolve(&authority(3)), Some(2));
    assert_eq!(record.resolve(&authority(9)), None);
}

#[test]
fn threshold_reached_at_two_of_three() {
    // validators = [A, B, C], threshold = 2
    let mut record = three_validator_record();
    assert!(record.note(&witness(1, digest(10), authority(1), signature(1))));
    assert!(!record.has_consensus(1, &digest(10), 2));
    assert!(record.note(&witness(1, digest(10), authority(2), signature(2))));
    assert!(record.has_consensus(1, &digest(10), 2));

    let sigs = record.signatures_for(1, &digest(10)).unwrap();
    assert_eq!(sigs.len(), 3);
    assert_eq!(sigs[0], signature(1));
    assert_eq!(sigs[1], signature(2));
    assert_eq!(sigs[2], [0u8; 65]);
}

#[test]
fn equivocating_witness_is_rejected() {
    // A already voted digest X for event 1; a second witness from A with a
    // different digest is dropped and opens no bucket for that digest.
    let mut record = three_validator_record();
    assert!(record.note(&witness(1, digest(10), authority(1), signature(1))));
    assert!(!record.note(&witness(1, digest(11), authority(1), signature(7))));
    assert!(!record.has_consensus(1, &digest(11), 1));
    assert!(record.signatures_for(1, &digest(11)).is_none());
}

#[test]
fn duplicate_witness_is_rejected() {
    let mut record = three_validator_record();
    assert!(record.note(&witness(1, digest(10), authority(1), signature(1))));
    assert!(!record.note(&witness(1, digest(10), authority(1), signature(1))));
    assert!(!record.has_consensus(1, &digest(10), 2));
    let sigs = record.signatures_for(1, &digest(10)).unwrap();
    assert_eq!(sigs[0], signature(1));
    assert_eq!(sigs[1], [0u8; 65]);
    assert_eq!(sigs[2], [0u8; 65]);
}

#[test]
fn unknown_authority_is_a_structural_no_op() {
    let mut record = three_validator_record();
    assert!(!record.note(&witness(1, digest(10), authority(9), signature(9))));
    assert!(!record.has_consensus(1, &digest(10), 1));
    assert!(record.signatures_for(1, &digest(10)).is_none());

    // The rejected witness was not marked as voted: once the authority joins
    // the validator set, its witness for the same event is accepted.
    record.set_validators(vec![authority(1), authority(9)]);
    assert!(record.note(&witness(1, digest(10), authority(9), signature(9))));
    assert!(record.has_consensus(1, &digest(10), 1));
}

#[test]
fn same_authority_can_vote_distinct_events() {
    let mut record = three_validator_record();
    assert!(record.note(&witness(1, digest(10), authority(1), signature(1))));
    assert!(record.note(&witness(2, digest(10), authority(1), signature(1))));
    assert!(record.has_consensus(1, &digest(10), 1));
    assert!(record.has_consensus(2, &digest(10), 1));
}

#[test]
fn conflicting_digests_are_tracked_independently() {
    let mut record = three_validator_record();
    assert!(record.note(&witness(1, digest(10), authority(1), signature(1))));
    assert!(record.note(&witness(1, digest(11), authority(2), signature(2))));
    assert!(record.has_consensus(1, &digest(10), 1));
    assert!(record.has_consensus(1, &digest(11), 1));
    assert!(!record.has_consensus(1, &digest(10), 2));
    assert!(!record.has_consensus(1, &digest(11), 2));

    let sigs_x = record.signatures_for(1, &digest(10)).unwrap();
    assert_eq!(sigs_x[0], signature(1));
    assert_eq!(sigs_x[1], [0u8; 65]);
    let sigs_y = record.signatures_for(1, &digest(11)).unwrap();
    assert_eq!(sigs_y[0], [0u8; 65]);
    assert_eq!(sigs_y[1], signature(2));
}

#[test]
fn zero_threshold_is_trivially_met() {
    let record = WitnessRecord::new();
    assert!(record.has_consensus(1, &digest(10), 0));
}

#[test]
fn clear_removes_ledger_and_metadata() {
    let mut record = three_validator_record();
    assert!(record.note(&witness(1, digest(10), authority(1), signature(1))));
    assert!(record.note(&witness(1, digest(10), authority(2), signature(2))));
    record.note_event_metadata(1, digest(42), Some(vec![5, 6]));
    assert!(record.has_consensus(1, &digest(10), 2));

    record.clear(1);
    assert!(!record.has_consensus(1, &digest(10), 1));
    assert!(record.signatures_for(1, &digest(10)).is_none());
    assert!(record.event_metadata(1).is_none());
}

#[test]
fn clear_leaves_other_events_alone() {
    let mut record = three_validator_record();
    assert!(record.note(&witness(1, digest(10), authority(1), signature(1))));
    assert!(record.note(&witness(2, digest(11), authority(2), signature(2))));
    record.note_event_metadata(2, digest(43), None);

    record.clear(1);
    assert!(record.has_consensus(2, &digest(11), 1));
    assert_eq!(record.event_metadata(2), Some(&(digest(43), None)));
}

#[test]
fn clear_retains_the_vote_guard() {
    // Replay-proof policy: an evicted event's bookkeeping cannot be
    // resurrected by a late duplicate of a witness already seen.
    let mut record = three_validator_record();
    assert!(record.note(&witness(1, digest(10), authority(1), signature(1))));
    record.clear(1);
    assert!(!record.note(&witness(1, digest(10), authority(1), signature(1))));
    assert!(!record.has_consensus(1, &digest(10), 1));
}

#[test]
fn clear_of_unknown_event_is_a_no_op() {
    let mut record = three_validator_record();
    assert!(record.note(&witness(1, digest(10), authority(1), signature(1))));
    record.clear(99);
    assert!(record.has_consensus(1, &digest(10), 1));
}

#[test]
fn empty_validator_set_accepts_no_witness() {
    let mut record = WitnessRecord::new();
    assert!(!record.note(&witness(1, digest(10), authority(1), signature(1))));
    assert!(!record.has_consensus(1, &digest(10), 1));
}

#[test]
fn metadata_first_writer_wins() {
    let mut record = WitnessRecord::new();
    record.note_event_metadata(1, digest(42), Some(vec![1]));
    record.note_event_metadata(1, digest(43), Some(vec![2]));
    assert_eq!(record.event_metadata(1), Some(&(digest(42), Some(vec![1]))));
}

#[test]
fn metadata_is_per_event() {
    let mut record = WitnessRecord::new();
    record.note_event_metadata(1, digest(42), None);
    record.note_event_metadata(2, digest(43), Some(vec![9]));
    assert_eq!(record.event_metadata(1), Some(&(digest(42), None)));
    assert_eq!(record.event_metadata(2), Some(&(digest(43), Some(vec![9]))));
    assert!(record.event_metadata(3).is_none());
}

#[test]
fn proof_array_matches_validator_set_size() {
    let mut record = WitnessRecord::new();
    record.set_validators(vec![
        authority(1),
        authority(2),
        authority(3),
        authority(4),
        authority(5),
    ]);
    assert!(record.note(&witness(1, digest(10), authority(4), signature(4))));
    let sigs = record.signatures_for(1, &digest(10)).unwrap();
    assert_eq!(sigs.len(), 5);
    for (position, sig) in sigs.iter().enumerate() {
        if position == 3 {
            assert_eq!(*sig, signature(4));
        } else {
            assert_eq!(*sig, [0u8; 65]);
        }
    }
}

#[test]
fn replacing_validators_reorders_positions() {
    let mut record = three_validator_record();
    record.set_validators(vec![authority(3), authority(1)]);
    assert_eq!(record.resolve(&authority(3)), Some(0));
    assert_eq!(record.resolve(&authority(1)), Some(1));
    assert_eq!(record.resolve(&authority(2)), None);

    assert!(record.note(&witness(1, digest(10), authority(3), signature(3))));
    let sigs = record.signatures_for(1, &digest(10)).unwrap();
    assert_eq!(sigs.len(), 2);
    assert_eq!(sigs[0], signature(3));
    assert_eq!(sigs[1], [0u8; 65]);
}
