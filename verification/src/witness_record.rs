//! Tracks live witnesses.
//!
//! Stores witnesses per event identifier and claimed digest
//! (`event_id -> digest -> [(authority position, signature)]`), so that the
//! gadget stays resilient when different digests are witnessed for the same
//! event, maliciously or not.

use vstd::prelude::*;

verus! {

broadcast use vstd::array::group_array_axioms;

/// Identifier of an externally observed event.
pub type EventId = u64;

/// ECDSA public (session) key identifying a validator.
pub type AuthorityId = [u8; 33];

/// ECDSA signature produced by an authority over an event and its digest.
pub type AuthoritySignature = [u8; 65];

/// A single validator's signed claim about an event's digest.
pub struct Witness {
    /// The event this witness attests to.
    pub event_id: EventId,
    /// The content hash the authority claims is the canonical event encoding.
    pub digest: [u8; 32],
    /// The attesting validator's public key.
    pub authority_id: AuthorityId,
    /// The authority's signature over `(event_id, digest)`.
    pub signature: AuthoritySignature,
}

/// One digest bucket of an event: the signatures recorded for this exact
/// claimed digest, as sparse (authority position, signature) pairs.
struct DigestEntry {
    digest: [u8; 32],
    proofs: Vec<(usize, AuthoritySignature)>,
}

/// All digest buckets recorded for one event.
struct EventEntry {
    event_id: EventId,
    digests: Vec<DigestEntry>,
}

/// The authorities that have already cast a witness for one event.
struct VoteEntry {
    event_id: EventId,
    voters: Vec<AuthorityId>,
}

/// Tracks live witnesses.
///
/// The vote guard (`has_voted`) deliberately survives [`WitnessRecord::clear`]:
/// a late or replayed witness for an evicted event cannot resurrect its
/// bookkeeping. An event id is therefore processed at most once per authority
/// over the lifetime of this value.
pub struct WitnessRecord {
    /// event_id -> digest -> [(authority position, signature)]
    record: Vec<EventEntry>,
    /// Local record of info of an event: origin block reference and an
    /// optional classification tag, noted once.
    event_meta: Vec<(EventId, ([u8; 32], Option<Vec<u8>>))>,
    /// Per-event set of authorities that have already cast a witness.
    has_voted: Vec<VoteEntry>,
    /// The ECDSA public (session) keys of the active validators, ordered.
    validators: Vec<AuthorityId>,
}

/// True iff some element of `s` satisfies `p`.
pub open spec fn found_where<T>(s: Seq<T>, p: spec_fn(T) -> bool) -> bool {
    exists|i: int| 0 <= i < s.len() && p(s[i])
}

/// The element of `s` satisfying `p`; meaningful when exactly one does.
pub open spec fn entry_where<T>(s: Seq<T>, p: spec_fn(T) -> bool) -> T
    recommends
        found_where(s, p),
{
    s[choose|i: int| 0 <= i < s.len() && p(s[i])]
}

/// Selects the event entry keyed by `event_id`.
spec fn event_key(event_id: EventId) -> spec_fn(EventEntry) -> bool {
    |ee: EventEntry| ee.event_id == event_id
}

/// Selects the digest bucket keyed by the digest bytes `digest`.
spec fn digest_key(digest: Seq<u8>) -> spec_fn(DigestEntry) -> bool {
    |de: DigestEntry| de.digest@ == digest
}

/// Selects the vote-guard entry keyed by `event_id`.
spec fn vote_key(event_id: EventId) -> spec_fn(VoteEntry) -> bool {
    |ve: VoteEntry| ve.event_id == event_id
}

/// Selects the metadata entry keyed by `event_id`.
spec fn meta_key(event_id: EventId) -> spec_fn((EventId, ([u8; 32], Option<Vec<u8>>))) -> bool {
    |me: (EventId, ([u8; 32], Option<Vec<u8>>))| me.0 == event_id
}

/// The byte view of an optional tag.
pub open spec fn tag_view(tag: Option<Vec<u8>>) -> Option<Seq<u8>> {
    match tag {
        Option::None => Option::None,
        Option::Some(v) => Option::Some(v@),
    }
}

/// The default (all-zero) signature placeholder used at positions of
/// authorities that have not witnessed the digest.
pub open spec fn zero_sig() -> Seq<u8> {
    Seq::new(65, |i: int| 0u8)
}

/// The signature recorded for authority position `pos` in the bucket `b`:
/// the last (position, signature) pair for `pos`, if any. Under normal
/// operation a position occurs at most once per bucket, so "last" is simply
/// "the" recorded signature.
pub open spec fn last_sig_at(b: Seq<(int, Seq<u8>)>, pos: int) -> Option<Seq<u8>>
    decreases b.len(),
{
    if b.len() == 0 {
        Option::None
    } else if b.last().0 == pos {
        Option::Some(b.last().1)
    } else {
        last_sig_at(b.drop_last(), pos)
    }
}

/// The signature recorded for position `pos` in bucket `b`, or the all-zero
/// placeholder when the position has none.
pub open spec fn sig_or_default(b: Seq<(int, Seq<u8>)>, pos: int) -> Seq<u8> {
    match last_sig_at(b, pos) {
        Option::Some(s) => s,
        Option::None => zero_sig(),
    }
}

/// The bucket recorded for `(event_id, digest)` in `w`, or the empty bucket
/// when the pair is unknown.
pub open spec fn bucket_or_empty(w: WitnessRecord, event_id: EventId, digest: Seq<u8>) -> Seq<
    (int, Seq<u8>),
> {
    match w.spec_bucket(event_id, digest) {
        Option::None => Seq::empty(),
        Option::Some(b) => b,
    }
}

/// The state change a single accepted witness makes: its signature joins the
/// bucket of its exact (event, digest) pair at the witnessing authority's
/// current position, the authority is marked as having voted for the event,
/// and nothing else moves.
pub open spec fn note_accepted(
    pre: WitnessRecord,
    post: WitnessRecord,
    e: EventId,
    d: Seq<u8>,
    a: Seq<u8>,
    s: Seq<u8>,
) -> bool {
    &&& post.spec_bucket(e, d) == Option::Some(
        bucket_or_empty(pre, e, d).push((pre.spec_position(a), s)),
    )
    &&& forall|e2: EventId, d2: Seq<u8>|
        !(e2 == e && d2 == d) ==> #[trigger] post.spec_bucket(e2, d2) == pre.spec_bucket(e2, d2)
    &&& forall|e2: EventId, a2: Seq<u8>|
        #[trigger] post.spec_voted(e2, a2) == (pre.spec_voted(e2, a2) || (e2 == e && a2 == a))
    &&& forall|e2: EventId| #[trigger] post.spec_meta(e2) == pre.spec_meta(e2)
    &&& post.spec_validators() == pre.spec_validators()
}

/// `i` is the position of `a` in the ordered authority set `vs`: the first
/// index holding `a`.
pub open spec fn is_position_of(vs: Seq<Seq<u8>>, a: Seq<u8>, i: int) -> bool {
    &&& 0 <= i < vs.len()
    &&& vs[i] == a
    &&& forall|j: int| 0 <= j < i ==> vs[j] != a
}

/// The digest buckets of one event have pairwise distinct digests.
spec fn event_entry_wf(ee: EventEntry) -> bool {
    forall|i: int, j: int|
        0 <= i < j < ee.digests@.len() ==> (#[trigger] ee.digests@[i]).digest@ != (
        #[trigger] ee.digests@[j]).digest@
}

/// The voters of one vote-guard entry are pairwise distinct.
spec fn vote_entry_wf(ve: VoteEntry) -> bool {
    forall|i: int, j: int|
        0 <= i < j < ve.voters@.len() ==> (#[trigger] ve.voters@[i])@ != (
        #[trigger] ve.voters@[j])@
}

impl WitnessRecord {
    /// Well-formedness: each of the three per-event maps holds at most one
    /// entry per event id, digest buckets are unique within an event, and an
    /// authority appears at most once in an event's vote guard.
    pub closed spec fn wf(self) -> bool {
        &&& forall|i: int, j: int|
            0 <= i < j < self.record@.len() ==> (#[trigger] self.record@[i]).event_id != (
            #[trigger] self.record@[j]).event_id
        &&& forall|i: int| 0 <= i < self.record@.len() ==> event_entry_wf(#[trigger] self.record@[i])
        &&& forall|i: int, j: int|
            0 <= i < j < self.event_meta@.len() ==> (#[trigger] self.event_meta@[i]).0 != (
            #[trigger] self.event_meta@[j]).0
        &&& forall|i: int, j: int|
            0 <= i < j < self.has_voted@.len() ==> (#[trigger] self.has_voted@[i]).event_id != (
            #[trigger] self.has_voted@[j]).event_id
        &&& forall|i: int|
            0 <= i < self.has_voted@.len() ==> vote_entry_wf(#[trigger] self.has_voted@[i])
    }

    /// The ordered views of the active validator keys.
    pub closed spec fn spec_validators(self) -> Seq<Seq<u8>> {
        self.validators@.map_values(|a: AuthorityId| a@)
    }

    /// Whether `a` is an active authority in the current snapshot.
    pub open spec fn spec_resolved(self, a: Seq<u8>) -> bool {
        exists|i: int| 0 <= i < self.spec_validators().len() && self.spec_validators()[i] == a
    }

    /// The ordinal position of `a` in the current snapshot; meaningful when
    /// `a` resolves.
    pub open spec fn spec_position(self, a: Seq<u8>) -> int
        recommends
            self.spec_resolved(a),
    {
        choose|i: int| is_position_of(self.spec_validators(), a, i)
    }

    /// The signature bucket recorded for `(event_id, digest)`, as
    /// (authority position, signature bytes) pairs in insertion order;
    /// `None` when no witness for this exact pair has been recorded.
    pub closed spec fn spec_bucket(self, event_id: EventId, digest: Seq<u8>) -> Option<
        Seq<(int, Seq<u8>)>,
    > {
        if found_where(self.record@, event_key(event_id)) {
            let ee = entry_where(self.record@, event_key(event_id));
            if found_where(ee.digests@, digest_key(digest)) {
                let de = entry_where(ee.digests@, digest_key(digest));
                Option::Some(
                    de.proofs@.map_values(|p: (usize, AuthoritySignature)| (p.0 as int, p.1@)),
                )
            } else {
                Option::None
            }
        } else {
            Option::None
        }
    }

    /// The number of recorded (position, signature) pairs for the pair
    /// `(event_id, digest)`; zero when the pair is unknown.
    pub open spec fn spec_count(self, event_id: EventId, digest: Seq<u8>) -> nat {
        match self.spec_bucket(event_id, digest) {
            Option::None => 0,
            Option::Some(b) => b.len(),
        }
    }

    /// Whether the authority with key bytes `a` has already cast a witness
    /// for `event_id` (under any digest).
    pub closed spec fn spec_voted(self, event_id: EventId, a: Seq<u8>) -> bool {
        &&& found_where(self.has_voted@, vote_key(event_id))
        &&& found_where(
            entry_where(self.has_voted@, vote_key(event_id)).voters@,
            |v: AuthorityId| v@ == a,
        )
    }

    /// The metadata noted for `event_id`: origin block reference bytes and
    /// optional tag bytes.
    pub closed spec fn spec_meta(self, event_id: EventId) -> Option<(Seq<u8>, Option<Seq<u8>>)> {
        if found_where(self.event_meta@, meta_key(event_id)) {
            let me = entry_where(self.event_meta@, meta_key(event_id));
            Option::Some((me.1.0@, tag_view(me.1.1)))
        } else {
            Option::None
        }
    }

    /// An empty record: no witnesses, no metadata, no votes, no validators.
    pub fn new() -> (r: WitnessRecord)
        ensures
            r.wf(),
            r.spec_validators() == Seq::<Seq<u8>>::empty(),
            forall|e: EventId, d: Seq<u8>| r.spec_bucket(e, d) is None,
            forall|e: EventId, a: Seq<u8>| !r.spec_voted(e, a),
            forall|e: EventId| r.spec_meta(e) is None,
    {
        let r = WitnessRecord {
            record: Vec::new(),
            event_meta: Vec::new(),
            has_voted: Vec::new(),
            validators: Vec::new(),
        };
        proof {
            assert(r.spec_validators() =~= Seq::<Seq<u8>>::empty());
        }
        r
    }

    /// Set the validator keys, replacing the previous snapshot wholesale.
    /// Positions derived from the old snapshot are not rewritten: the caller
    /// is expected to drive each event's full lifecycle within a single
    /// snapshot's validity window.
    pub fn set_validators(&mut self, validators: Vec<AuthorityId>)
        requires
            old(self).wf(),
        ensures
            final(self).wf(),
            final(self).spec_validators() == validators@.map_values(|a: AuthorityId| a@),
            forall|e: EventId, d: Seq<u8>|
                final(self).spec_bucket(e, d) == old(self).spec_bucket(e, d),
            forall|e: EventId, a: Seq<u8>|
                final(self).spec_voted(e, a) == old(self).spec_voted(e, a),
            forall|e: EventId| final(self).spec_meta(e) == old(self).spec_meta(e),
    {
        self.validators = validators;
    }

    /// Remove a witness record from memory: its signature ledger and its
    /// metadata. The vote guard for the event is retained on purpose, so a
    /// replayed witness cannot resurrect an evicted event's bookkeeping.
    pub fn clear(&mut self, event_id: EventId)
        requires
            old(self).wf(),
        ensures
            final(self).wf(),
            forall|d: Seq<u8>| final(self).spec_bucket(event_id, d) is None,
            final(self).spec_meta(event_id) is None,
            forall|e: EventId, d: Seq<u8>|
                e != event_id ==> final(self).spec_bucket(e, d) == old(self).spec_bucket(e, d),
            forall|e: EventId|
                e != event_id ==> final(self).spec_meta(e) == old(self).spec_meta(e),
            forall|e: EventId, a: Seq<u8>|
                final(self).spec_voted(e, a) == old(self).spec_voted(e, a),
            final(self).spec_validators() == old(self).spec_validators(),
    {
        match find_event_index(&self.record, event_id) {
            Option::Some(i) => {
                let ghost pre = *self;
                self.record.remove(i);
                proof {
                    let s0 = pre.record@;
                    let s = self.record@;
                    assert(s == s0.remove(i as int));
                    assert forall|j: int| 0 <= j < s.len() implies (#[trigger] s[j]) == (if j
                        < i { s0[j] } else { s0[j + 1] }) by {}
                    assert forall|e: EventId, d: Seq<u8>| e != event_id implies #[trigger] self.spec_bucket(
                        e,
                        d,
                    ) == pre.spec_bucket(e, d) by {
                        if found_where(s0, event_key(e)) {
                            let k = choose|k: int| 0 <= k < s0.len() && event_key(e)(s0[k]);
                            lemma_event_lookup(s0, e, k);
                            if k < i {
                                lemma_event_lookup(s, e, k);
                            } else {
                                assert(s0[k].event_id != s0[i as int].event_id);
                                lemma_event_lookup(s, e, k - 1);
                            }
                        } else {
                            assert forall|j: int| 0 <= j < s.len() implies !event_key(e)(
                                s[j]) by {
                                if j < i {
                                    assert(!event_key(e)(s0[j]));
                                } else {
                                    assert(!event_key(e)(s0[j + 1]));
                                }
                            }
                            assert(!found_where(s, event_key(e)));
                        }
                    }
                    assert forall|j: int| 0 <= j < s.len() implies !event_key(event_id)(
                        s[j]) by {
                        if j < i {
                            assert(s0[j].event_id != s0[i as int].event_id);
                        } else {
                            assert(s0[i as int].event_id != s0[j + 1].event_id);
                        }
                    }
                    assert(!found_where(s, event_key(event_id)));
                    lemma_meta_frame(*self, pre);
                    lemma_votes_frame(*self, pre);
                }
            },
            Option::None => {
                proof {
                    assert forall|j: int|
                        0 <= j < self.record@.len() implies !event_key(event_id)(
                        self.record@[j]) by {}
                    assert(!found_where(self.record@, event_key(event_id)));
                }
            },
        }
        match find_meta_index(&self.event_meta, event_id) {
            Option::Some(i) => {
                let ghost pre = *self;
                self.event_meta.remove(i);
                proof {
                    let s0 = pre.event_meta@;
                    let s = self.event_meta@;
                    assert forall|j: int| 0 <= j < s.len() implies (#[trigger] s[j]) == (if j
                        < i { s0[j] } else { s0[j + 1] }) by {}
                    assert forall|e: EventId| e != event_id implies #[trigger] self.spec_meta(e)
                        == pre.spec_meta(e) by {
                        if found_where(s0, meta_key(e)) {
                            let k = choose|k: int| 0 <= k < s0.len() && meta_key(e)(s0[k]);
                            lemma_meta_lookup(s0, e, k);
                            if k < i {
                                lemma_meta_lookup(s, e, k);
                            } else {
                                assert(s0[k].0 != s0[i as int].0);
                                lemma_meta_lookup(s, e, k - 1);
                            }
                        } else {
                            assert forall|j: int| 0 <= j < s.len() implies !meta_key(e)(
                                s[j]) by {
                                if j < i {
                                    assert(!meta_key(e)(s0[j]));
                                } else {
                                    assert(!meta_key(e)(s0[j + 1]));
                                }
                            }
                            assert(!found_where(s, meta_key(e)));
                        }
                    }
                    assert forall|j: int| 0 <= j < s.len() implies !meta_key(event_id)(
                        s[j]) by {
                        if j < i {
                            assert(s0[j].0 != s0[i as int].0);
                        } else {
                            assert(s0[i as int].0 != s0[j + 1].0);
                        }
                    }
                    assert(!found_where(s, meta_key(event_id)));
                    lemma_ledger_frame(*self, pre);
                    lemma_votes_frame(*self, pre);
                }
            },
            Option::None => {
                proof {
                    assert forall|j: int|
                        0 <= j < self.event_meta@.len() implies !meta_key(event_id)(
                        self.event_meta@[j]) by {}
                    assert(!found_where(self.event_meta@, meta_key(event_id)));
                }
            },
        }
    }

    /// Does the event identified by `(event_id, digest)` have at least
    /// `threshold` recorded signatures? Absence of the event or the digest
    /// counts as zero support, never an error.
    pub fn has_consensus(&self, event_id: EventId, digest: &[u8; 32], threshold: usize) -> (r:
        bool)
        requires
            self.wf(),
        ensures
            r == (self.spec_count(event_id, digest@) >= threshold),
    {
        match find_event_index(&self.record, event_id) {
            Option::None => {
                proof {
                    assert forall|j: int|
                        0 <= j < self.record@.len() implies !event_key(event_id)(
                        self.record@[j]) by {}
                    assert(!found_where(self.record@, event_key(event_id)));
                }
                threshold == 0
            },
            Option::Some(ei) => {
                proof {
                    lemma_event_lookup(self.record@, event_id, ei as int);
                }
                match find_digest_index(&self.record[ei].digests, digest) {
                    Option::None => {
                        proof {
                            let ee = entry_where(self.record@, event_key(event_id));
                            assert forall|j: int|
                                0 <= j < ee.digests@.len() implies !digest_key(digest@)(
                                ee.digests@[j]) by {}
                            assert(!found_where(ee.digests@, digest_key(digest@)));
                        }
                        threshold == 0
                    },
                    Option::Some(di) => {
                        let count = self.record[ei].digests[di].proofs.len();
                        proof {
                            let ee = entry_where(self.record@, event_key(event_id));
                            assert(event_entry_wf(self.record@[ei as int]));
                            lemma_digest_lookup(ee.digests@, digest@, di as int);
                            assert(self.spec_count(event_id, digest@) == ee.digests@[di as int]
                                .proofs@.len());
                        }
                        count >= threshold
                    },
                }
            },
        }
    }

    /// Return all known signatures for the witness on `(event_id, digest)`
    /// as a dense array: one slot per authority of the current snapshot, the
    /// recorded signature at each position that has one and the all-zero
    /// placeholder elsewhere. Returns `None` when no witness for this exact
    /// pair has been recorded, rather than failing on the lookup.
    pub fn signatures_for(&self, event_id: EventId, digest: &[u8; 32]) -> (r: Option<
        Vec<AuthoritySignature>,
    >)
        requires
            self.wf(),
        ensures
            match r {
                Option::None => self.spec_bucket(event_id, digest@) is None,
                Option::Some(sigs) => {
                    &&& self.spec_bucket(event_id, digest@) is Some
                    &&& sigs@.len() == self.spec_validators().len()
                    &&& forall|p: int|
                        0 <= p < sigs@.len() ==> (#[trigger] sigs@[p])@ == sig_or_default(
                            bucket_or_empty(*self, event_id, digest@),
                            p,
                        )
                },
            },
    {
        let ei = match find_event_index(&self.record, event_id) {
            Option::None => {
                proof {
                    assert forall|j: int|
                        0 <= j < self.record@.len() implies !event_key(event_id)(
                        self.record@[j]) by {}
                    assert(!found_where(self.record@, event_key(event_id)));
                }
                return Option::None;
            },
            Option::Some(ei) => ei,
        };
        proof {
            lemma_event_lookup(self.record@, event_id, ei as int);
        }
        let di = match find_digest_index(&self.record[ei].digests, digest) {
            Option::None => {
                proof {
                    let ee = entry_where(self.record@, event_key(event_id));
                    assert forall|j: int|
                        0 <= j < ee.digests@.len() implies !digest_key(digest@)(
                        ee.digests@[j]) by {}
                    assert(!found_where(ee.digests@, digest_key(digest@)));
                }
                return Option::None;
            },
            Option::Some(di) => di,
        };
        proof {
            let ee = entry_where(self.record@, event_key(event_id));
            assert(event_entry_wf(self.record@[ei as int]));
            lemma_digest_lookup(ee.digests@, digest@, di as int);
        }
        let n = self.validators.len();
        let mut sigs: Vec<AuthoritySignature> = Vec::new();
        let mut k: usize = 0;
        while k < n
            invariant
                0 <= k <= n,
                sigs@.len() == k,
                forall|p: int| 0 <= p < k ==> (#[trigger] sigs@[p])@ == zero_sig(),
            decreases n - k,
        {
            let z: AuthoritySignature = [0u8; 65];
            proof {
                assert(z@ =~= zero_sig());
            }
            sigs.push(z);
            k += 1;
        }
        let ghost b = bucket_or_empty(*self, event_id, digest@);
        let proofs = &self.record[ei].digests[di].proofs;
        proof {
            assert(b == proofs@.map_values(
                |p: (usize, AuthoritySignature)| (p.0 as int, p.1@),
            ));
            assert(b.take(0) =~= Seq::<(int, Seq<u8>)>::empty());
            assert forall|p: int| 0 <= p < n implies (#[trigger] sigs@[p])@ == sig_or_default(
                b.take(0),
                p,
            ) by {}
        }
        let m = proofs.len();
        let mut t: usize = 0;
        while t < m
            invariant
                0 <= t <= m,
                m == proofs@.len(),
                b == proofs@.map_values(|p: (usize, AuthoritySignature)| (p.0 as int, p.1@)),
                n == self.spec_validators().len(),
                sigs@.len() == n,
                forall|p: int|
                    0 <= p < n ==> (#[trigger] sigs@[p])@ == sig_or_default(b.take(t as int), p),
            decreases m - t,
        {
            let pair = proofs[t];
            let idx = pair.0;
            let ghost prev = sigs@;
            proof {
                assert(b.take(t as int + 1).drop_last() =~= b.take(t as int));
                assert(b.take(t as int + 1).last() == b[t as int]);
                assert(b[t as int] == (proofs@[t as int].0 as int, proofs@[t as int].1@));
            }
            if idx < n {
                sigs[idx] = pair.1;
                proof {
                    assert forall|p: int|
                        0 <= p < n implies (#[trigger] sigs@[p])@ == sig_or_default(
                        b.take(t as int + 1),
                        p,
                    ) by {
                        if p == idx as int {
                            assert(sigs@[p] == pair.1);
                        } else {
                            assert(sigs@[p] == prev[p]);
                            assert(b.take(t as int + 1).last().0 != p);
                        }
                    }
                }
            } else {
                proof {
                    assert forall|p: int|
                        0 <= p < n implies (#[trigger] sigs@[p])@ == sig_or_default(
                        b.take(t as int + 1),
                        p,
                    ) by {
                        assert(b.take(t as int + 1).last().0 == idx as int);
                        assert(b.take(t as int + 1).last().0 != p);
                    }
                }
            }
            t += 1;
        }
        proof {
            assert(b.take(m as int) =~= b);
        }
        Option::Some(sigs)
    }

    /// Return the event metadata (origin block reference, optional tag)
    /// noted for `event_id`, if any.
    pub fn event_metadata(&self, event_id: EventId) -> (r: Option<&([u8; 32], Option<Vec<u8>>)>)
        requires
            self.wf(),
        ensures
            match r {
                Option::Some(m) => self.spec_meta(event_id) == Option::Some(
                    (m.0@, tag_view(m.1)),
                ),
                Option::None => self.spec_meta(event_id) is None,
            },
    {
        match find_meta_index(&self.event_meta, event_id) {
            Option::None => {
                proof {
                    assert forall|j: int|
                        0 <= j < self.event_meta@.len() implies !meta_key(event_id)(
                        self.event_meta@[j]) by {}
                    assert(!found_where(self.event_meta@, meta_key(event_id)));
                }
                Option::None
            },
            Option::Some(i) => {
                proof {
                    lemma_meta_lookup(self.event_meta@, event_id, i as int);
                }
                Option::Some(&self.event_meta[i].1)
            },
        }
    }

    /// Note the event metadata once; later calls for the same `event_id` are
    /// no-ops, so the first writer wins.
    pub fn note_event_metadata(&mut self, event_id: EventId, block: [u8; 32], tag: Option<Vec<u8>>)
        requires
            old(self).wf(),
        ensures
            final(self).wf(),
            final(self).spec_meta(event_id) == match old(self).spec_meta(event_id) {
                Option::Some(m) => Option::Some(m),
                Option::None => Option::Some((block@, tag_view(tag))),
            },
            forall|e: EventId|
                e != event_id ==> final(self).spec_meta(e) == old(self).spec_meta(e),
            forall|e: EventId, d: Seq<u8>|
                final(self).spec_bucket(e, d) == old(self).spec_bucket(e, d),
            forall|e: EventId, a: Seq<u8>|
                final(self).spec_voted(e, a) == old(self).spec_voted(e, a),
            final(self).spec_validators() == old(self).spec_validators(),
    {
        match find_meta_index(&self.event_meta, event_id) {
            Option::Some(i) => {
                proof {
                    lemma_meta_lookup(self.event_meta@, event_id, i as int);
                }
            },
            Option::None => {
                proof {
                    assert forall|j: int|
                        0 <= j < self.event_meta@.len() implies !meta_key(event_id)(
                        self.event_meta@[j]) by {}
                    assert(!found_where(self.event_meta@, meta_key(event_id)));
                }
                let ghost pre = *self;
                self.event_meta.push((event_id, (block, tag)));
                proof {
                    let s = self.event_meta@;
                    let n = s.len() - 1;
                    assert(s[n].0 == event_id);
                    lemma_meta_lookup(s, event_id, n);
                    assert(self.spec_meta(event_id) == Option::Some((block@, tag_view(tag))));
                    assert forall|e: EventId| e != event_id implies #[trigger] self.spec_meta(e)
                        == pre.spec_meta(e) by {
                        if found_where(pre.event_meta@, meta_key(e)) {
                            let k = choose|k: int|
                                0 <= k < pre.event_meta@.len() && meta_key(e)(pre.event_meta@[k]);
                            lemma_meta_lookup(pre.event_meta@, e, k);
                            lemma_meta_lookup(s, e, k);
                        } else {
                            assert forall|j: int| 0 <= j < s.len() implies !meta_key(e)(
                                s[j]) by {
                                if j < n {
                                    assert(!meta_key(e)(pre.event_meta@[j]));
                                }
                            }
                            assert(!found_where(s, meta_key(e)));
                        }
                    }
                }
            },
        }
    }

    /// Note a witness if we haven't seen it before.
    ///
    /// Returns true iff the witness was noted: the authority had not yet
    /// voted for this event and resolves against the current snapshot. An
    /// authority's first witness for an event is authoritative; later
    /// witnesses for the same event, even with a different digest, are
    /// rejected without touching any state. A witness from an unknown
    /// authority is likewise a structural no-op: it is not marked as voted,
    /// so it cannot block a legitimate later witness.
    pub fn note(&mut self, witness: &Witness) -> (r: bool)
        requires
            old(self).wf(),
        ensures
            final(self).wf(),
            r == (!old(self).spec_voted(witness.event_id, witness.authority_id@) && old(
                self,
            ).spec_resolved(witness.authority_id@)),
            !r ==> *final(self) == *old(self),
            r ==> note_accepted(
                *old(self),
                *final(self),
                witness.event_id,
                witness.digest@,
                witness.authority_id@,
                witness.signature@,
            ),
    {
        let ghost pre = *old(self);
        let event_id = witness.event_id;
        // Reject a duplicate or equivocating witness before touching the ledger.
        let maybe_vote = find_vote_index(&self.has_voted, event_id);
        let already = match maybe_vote {
            Option::Some(vi) => {
                proof {
                    lemma_vote_lookup(self.has_voted@, event_id, vi as int);
                }
                voters_contain(&self.has_voted[vi].voters, &witness.authority_id)
            },
            Option::None => {
                proof {
                    assert forall|j: int|
                        0 <= j < self.has_voted@.len() implies !vote_key(event_id)(
                        self.has_voted@[j]) by {}
                    assert(!found_where(self.has_voted@, vote_key(event_id)));
                }
                false
            },
        };
        proof {
            assert(already == pre.spec_voted(event_id, witness.authority_id@));
        }
        if already {
            return false;
        }
        // Convert the authority key into its ordered index; an unresolved
        // authority is not an active validator, so the witness is dropped
        // without being marked as voted.
        let authority_index = match self.resolve(&witness.authority_id) {
            Option::None => {
                return false;
            },
            Option::Some(p) => p,
        };
        // Insert (position, signature) into the bucket for (event_id, digest),
        // creating the event-level and digest-level buckets lazily.
        match find_event_index(&self.record, event_id) {
            Option::Some(ei) => {
                proof {
                    lemma_event_lookup(pre.record@, event_id, ei as int);
                    assert(event_entry_wf(pre.record@[ei as int]));
                }
                match find_digest_index(&self.record[ei].digests, &witness.digest) {
                    Option::Some(di) => {
                        proof {
                            lemma_digest_lookup(
                                pre.record@[ei as int].digests@,
                                witness.digest@,
                                di as int,
                            );
                        }
                        self.record[ei].digests[di].proofs.push(
                            (authority_index, witness.signature),
                        );
                        proof {
                            let s0 = pre.record@;
                            let s = self.record@;
                            let ee0 = s0[ei as int];
                            let ee1 = s[ei as int];
                            let de0 = ee0.digests@[di as int];
                            let de1 = ee1.digests@[di as int];
                            assert(s =~= s0.update(ei as int, ee1));
                            assert(ee1.event_id == ee0.event_id);
                            assert(ee1.digests@ =~= ee0.digests@.update(di as int, de1));
                            assert(de1.digest == de0.digest);
                            assert(de1.proofs@ == de0.proofs@.push(
                                (authority_index, witness.signature),
                            ));
                            assert forall|x: int, y: int|
                                0 <= x < y < s.len() implies (#[trigger] s[x]).event_id != (
                                #[trigger] s[y]).event_id by {
                                assert(s0[x].event_id != s0[y].event_id);
                            }
                            assert forall|x: int|
                                0 <= x < s.len() implies event_entry_wf(#[trigger] s[x]) by {
                                assert(event_entry_wf(s0[x]));
                                if x == ei as int {
                                    assert forall|u: int, v: int|
                                        0 <= u < v < ee1.digests@.len() implies (
                                        #[trigger] ee1.digests@[u]).digest@ != (
                                        #[trigger] ee1.digests@[v]).digest@ by {
                                        assert(ee1.digests@[u].digest == ee0.digests@[u].digest);
                                        assert(ee1.digests@[v].digest == ee0.digests@[v].digest);
                                        assert(ee0.digests@[u].digest@ != ee0.digests@[v].digest@);
                                    }
                                }
                            }
                            lemma_event_lookup(s, event_id, ei as int);
                            lemma_digest_lookup(ee1.digests@, witness.digest@, di as int);
                            let f = |p: (usize, AuthoritySignature)| (p.0 as int, p.1@);
                            assert(de1.proofs@.map_values(f) =~= de0.proofs@.map_values(f).push(
                                (authority_index as int, witness.signature@),
                            ));
                            assert(self.spec_bucket(event_id, witness.digest@) == Option::Some(
                                bucket_or_empty(pre, event_id, witness.digest@).push(
                                    (pre.spec_position(witness.authority_id@), witness.signature@),
                                ),
                            ));
                            assert forall|e2: EventId, d2: Seq<u8>|
                                !(e2 == event_id && d2 == witness.digest@) implies #[trigger] self
                                .spec_bucket(e2, d2) == pre.spec_bucket(e2, d2) by {
                                if e2 != event_id {
                                    if found_where(s0, event_key(e2)) {
                                        let k = choose|k: int|
                                            0 <= k < s0.len() && event_key(e2)(s0[k]);
                                        lemma_event_lookup(s0, e2, k);
                                        assert(k != ei as int);
                                        lemma_event_lookup(s, e2, k);
                                    } else {
                                        assert forall|j: int|
                                            0 <= j < s.len() implies !event_key(e2)(s[j]) by {
                                            assert(!event_key(e2)(s0[j]));
                                        }
                                        assert(!found_where(s, event_key(e2)));
                                    }
                                } else {
                                    lemma_event_lookup(s0, e2, ei as int);
                                    if found_where(ee0.digests@, digest_key(d2)) {
                                        let k = choose|k: int|
                                            0 <= k < ee0.digests@.len() && digest_key(d2)(
                                                ee0.digests@[k],
                                            );
                                        lemma_digest_lookup(ee0.digests@, d2, k);
                                        assert(k != di as int);
                                        assert(ee1.digests@[k] == ee0.digests@[k]);
                                        lemma_digest_lookup(ee1.digests@, d2, k);
                                    } else {
                                        assert forall|j: int|
                                            0 <= j < ee1.digests@.len() implies !digest_key(d2)(
                                            ee1.digests@[j]) by {
                                            assert(ee1.digests@[j].digest == ee0.digests@[j].digest);
                                            assert(!digest_key(d2)(ee0.digests@[j]));
                                        }
                                        assert(!found_where(ee1.digests@, digest_key(d2)));
                                    }
                                }
                            }
                        }
                    },
                    Option::None => {
                        proof {
                            assert forall|j: int|
                                0 <= j < pre.record@[ei as int].digests@.len() implies !digest_key(
                                witness.digest@,
                            )(pre.record@[ei as int].digests@[j]) by {}
                            assert(!found_where(
                                pre.record@[ei as int].digests@,
                                digest_key(witness.digest@),
                            ));
                        }
                        let mut proofs: Vec<(usize, AuthoritySignature)> = Vec::new();
                        proofs.push((authority_index, witness.signature));
                        let entry = DigestEntry { digest: witness.digest, proofs };
                        self.record[ei].digests.push(entry);
                        proof {
                            let s0 = pre.record@;
                            let s = self.record@;
                            let ee0 = s0[ei as int];
                            let ee1 = s[ei as int];
                            let nd = ee0.digests@.len() as int;
                            assert(s =~= s0.update(ei as int, ee1));
                            assert(ee1.event_id == ee0.event_id);
                            assert(ee1.digests@ == ee0.digests@.push(
                                ee1.digests@[nd],
                            ));
                            let de1 = ee1.digests@[nd];
                            assert(de1.digest == witness.digest);
                            assert(de1.proofs@.len() == 1);
                            assert(de1.proofs@[0] == (authority_index, witness.signature));
                            assert forall|x: int, y: int|
                                0 <= x < y < s.len() implies (#[trigger] s[x]).event_id != (
                                #[trigger] s[y]).event_id by {
                                assert(s0[x].event_id != s0[y].event_id);
                            }
                            assert forall|x: int|
                                0 <= x < s.len() implies event_entry_wf(#[trigger] s[x]) by {
                                assert(event_entry_wf(s0[x]));
                                if x == ei as int {
                                    assert forall|u: int, v: int|
                                        0 <= u < v < ee1.digests@.len() implies (
                                        #[trigger] ee1.digests@[u]).digest@ != (
                                        #[trigger] ee1.digests@[v]).digest@ by {
                                        if v < nd {
                                            assert(ee1.digests@[u] == ee0.digests@[u]);
                                            assert(ee1.digests@[v] == ee0.digests@[v]);
                                        } else {
                                            assert(ee1.digests@[u] == ee0.digests@[u]);
                                            assert(ee0.digests@[u].digest@ != witness.digest@);
                                        }
                                    }
                                }
                            }
                            lemma_event_lookup(s, event_id, ei as int);
                            lemma_digest_lookup(ee1.digests@, witness.digest@, nd);
                            let f = |p: (usize, AuthoritySignature)| (p.0 as int, p.1@);
                            assert(bucket_or_empty(pre, event_id, witness.digest@) =~= Seq::<
                                (int, Seq<u8>),
                            >::empty());
                            assert(de1.proofs@.map_values(f) =~= Seq::<(int, Seq<u8>)>::empty()
                                .push((authority_index as int, witness.signature@)));
                            assert(self.spec_bucket(event_id, witness.digest@) == Option::Some(
                                bucket_or_empty(pre, event_id, witness.digest@).push(
                                    (pre.spec_position(witness.authority_id@), witness.signature@),
                                ),
                            ));
                            assert forall|e2: EventId, d2: Seq<u8>|
                                !(e2 == event_id && d2 == witness.digest@) implies #[trigger] self
                                .spec_bucket(e2, d2) == pre.spec_bucket(e2, d2) by {
                                if e2 != event_id {
                                    if found_where(s0, event_key(e2)) {
                                        let k = choose|k: int|
                                            0 <= k < s0.len() && event_key(e2)(s0[k]);
                                        lemma_event_lookup(s0, e2, k);
                                        assert(k != ei as int);
                                        lemma_event_lookup(s, e2, k);
                                    } else {
                                        assert forall|j: int|
                                            0 <= j < s.len() implies !event_key(e2)(s[j]) by {
                                            assert(!event_key(e2)(s0[j]));
                                        }
                                        assert(!found_where(s, event_key(e2)));
                                    }
                                } else {
                                    lemma_event_lookup(s0, e2, ei as int);
                                    if found_where(ee0.digests@, digest_key(d2)) {
                                        let k = choose|k: int|
                                            0 <= k < ee0.digests@.len() && digest_key(d2)(
                                                ee0.digests@[k],
                                            );
                                        lemma_digest_lookup(ee0.digests@, d2, k);
                                        assert(ee1.digests@[k] == ee0.digests@[k]);
                                        lemma_digest_lookup(ee1.digests@, d2, k);
                                    } else {
                                        assert forall|j: int|
                                            0 <= j < ee1.digests@.len() implies !digest_key(d2)(
                                            ee1.digests@[j]) by {
                                            if j < nd {
                                                assert(!digest_key(d2)(ee0.digests@[j]));
                                            } else {
                                                assert(ee1.digests@[j].digest@ == witness.digest@);
                                            }
                                        }
                                        assert(!found_where(ee1.digests@, digest_key(d2)));
                                    }
                                }
                            }
                        }
                    },
                }
            },
            Option::None => {
                proof {
                    assert forall|j: int|
                        0 <= j < pre.record@.len() implies !event_key(event_id)(
                        pre.record@[j]) by {}
                    assert(!found_where(pre.record@, event_key(event_id)));
                }
                let mut proofs: Vec<(usize, AuthoritySignature)> = Vec::new();
                proofs.push((authority_index, witness.signature));
                let mut digests: Vec<DigestEntry> = Vec::new();
                digests.push(DigestEntry { digest: witness.digest, proofs });
                self.record.push(EventEntry { event_id, digests });
                proof {
                    let s0 = pre.record@;
                    let s = self.record@;
                    let ne = s0.len() as int;
                    let ee1 = s[ne];
                    assert(s == s0.push(ee1));
                    assert(ee1.event_id == event_id);
                    assert(ee1.digests@.len() == 1);
                    let de1 = ee1.digests@[0];
                    assert(de1.digest == witness.digest);
                    assert(de1.proofs@.len() == 1);
                    assert(de1.proofs@[0] == (authority_index, witness.signature));
                    assert forall|x: int, y: int|
                        0 <= x < y < s.len() implies (#[trigger] s[x]).event_id != (
                        #[trigger] s[y]).event_id by {
                        if y < ne {
                            assert(s0[x].event_id != s0[y].event_id);
                        } else {
                            assert(s0[x].event_id != event_id);
                        }
                    }
                    assert forall|x: int|
                        0 <= x < s.len() implies event_entry_wf(#[trigger] s[x]) by {
                        if x < ne {
                            assert(event_entry_wf(s0[x]));
                        }
                    }
                    lemma_event_lookup(s, event_id, ne);
                    lemma_digest_lookup(ee1.digests@, witness.digest@, 0);
                    let f = |p: (usize, AuthoritySignature)| (p.0 as int, p.1@);
                    assert(bucket_or_empty(pre, event_id, witness.digest@) =~= Seq::<
                        (int, Seq<u8>),
                    >::empty());
                    assert(de1.proofs@.map_values(f) =~= Seq::<(int, Seq<u8>)>::empty().push(
                        (authority_index as int, witness.signature@),
                    ));
                    assert(self.spec_bucket(event_id, witness.digest@) == Option::Some(
                        bucket_or_empty(pre, event_id, witness.digest@).push(
                            (pre.spec_position(witness.authority_id@), witness.signature@),
                        ),
                    ));
                    assert forall|e2: EventId, d2: Seq<u8>|
                        !(e2 == event_id && d2 == witness.digest@) implies #[trigger] self
                        .spec_bucket(e2, d2) == pre.spec_bucket(e2, d2) by {
                        if e2 != event_id {
                            if found_where(s0, event_key(e2)) {
                                let k = choose|k: int| 0 <= k < s0.len() && event_key(e2)(s0[k]);
                                lemma_event_lookup(s0, e2, k);
                                lemma_event_lookup(s, e2, k);
                            } else {
                                assert forall|j: int|
                                    0 <= j < s.len() implies !event_key(e2)(s[j]) by {
                                    if j < ne {
                                        assert(!event_key(e2)(s0[j]));
                                    }
                                }
                                assert(!found_where(s, event_key(e2)));
                            }
                        } else {
                            lemma_event_lookup(s, e2, ne);
                            assert forall|j: int|
                                0 <= j < ee1.digests@.len() implies !digest_key(d2)(
                                ee1.digests@[j]) by {
                                assert(ee1.digests@[j].digest@ == witness.digest@);
                            }
                            assert(!found_where(ee1.digests@, digest_key(d2)));
                        }
                    }
                }
            },
        }
        let ghost mid = *self;
        // Mark the authority as voted for this event.
        match maybe_vote {
            Option::None => {
                let mut voters: Vec<AuthorityId> = Vec::new();
                voters.push(witness.authority_id);
                self.has_voted.push(VoteEntry { event_id, voters });
                proof {
                    let s0 = pre.has_voted@;
                    let s = self.has_voted@;
                    let nv = s0.len() as int;
                    let ve1 = s[nv];
                    assert(s == s0.push(ve1));
                    assert(ve1.event_id == event_id);
                    assert(ve1.voters@.len() == 1);
                    assert(ve1.voters@[0]@ == witness.authority_id@);
                    assert forall|x: int, y: int|
                        0 <= x < y < s.len() implies (#[trigger] s[x]).event_id != (
                        #[trigger] s[y]).event_id by {
                        if y < nv {
                            assert(s0[x].event_id != s0[y].event_id);
                        } else {
                            assert(s0[x].event_id != event_id);
                        }
                    }
                    assert forall|x: int|
                        0 <= x < s.len() implies vote_entry_wf(#[trigger] s[x]) by {
                        if x < nv {
                            assert(vote_entry_wf(s0[x]));
                        }
                    }
                    assert forall|e2: EventId, a2: Seq<u8>| #[trigger] self.spec_voted(e2, a2) == (
                    pre.spec_voted(e2, a2) || (e2 == event_id && a2
                        == witness.authority_id@)) by {
                        if e2 == event_id {
                            lemma_vote_lookup(s, e2, nv);
                            assert(!found_where(s0, vote_key(e2)));
                            if a2 == witness.authority_id@ {
                                assert(ve1.voters@[0]@ == a2);
                                assert(found_where(ve1.voters@, |v: AuthorityId| v@ == a2));
                            } else {
                                assert forall|j: int|
                                    0 <= j < ve1.voters@.len() implies (#[trigger] ve1.voters@[j])@
                                    != a2 by {}
                                assert(!found_where(ve1.voters@, |v: AuthorityId| v@ == a2));
                            }
                        } else {
                            if found_where(s0, vote_key(e2)) {
                                let k = choose|k: int| 0 <= k < s0.len() && vote_key(e2)(s0[k]);
                                lemma_vote_lookup(s0, e2, k);
                                lemma_vote_lookup(s, e2, k);
                            } else {
                                assert forall|j: int|
                                    0 <= j < s.len() implies !vote_key(e2)(s[j]) by {
                                    if j < nv {
                                        assert(!vote_key(e2)(s0[j]));
                                    }
                                }
                                assert(!found_where(s, vote_key(e2)));
                            }
                        }
                    }
                }
            },
            Option::Some(vi) => {
                self.has_voted[vi].voters.push(witness.authority_id);
                proof {
                    let s0 = pre.has_voted@;
                    let s = self.has_voted@;
                    let ve0 = s0[vi as int];
                    let ve1 = s[vi as int];
                    let nv = ve0.voters@.len() as int;
                    assert(s =~= s0.update(vi as int, ve1));
                    assert(ve1.event_id == ve0.event_id);
                    assert(ve1.voters@ == ve0.voters@.push(witness.authority_id));
                    lemma_vote_lookup(s0, event_id, vi as int);
                    assert(!found_where(ve0.voters@, |v: AuthorityId| v@ == witness.authority_id@));
                    assert forall|j: int|
                        0 <= j < ve0.voters@.len() implies (#[trigger] ve0.voters@[j])@
                        != witness.authority_id@ by {
                        if ve0.voters@[j]@ == witness.authority_id@ {
                            assert((|v: AuthorityId| v@ == witness.authority_id@)(ve0.voters@[j]));
                            assert(found_where(
                                ve0.voters@,
                                |v: AuthorityId| v@ == witness.authority_id@,
                            ));
                        }
                    }
                    assert forall|x: int, y: int|
                        0 <= x < y < s.len() implies (#[trigger] s[x]).event_id != (
                        #[trigger] s[y]).event_id by {
                        assert(s0[x].event_id != s0[y].event_id);
                    }
                    assert forall|x: int|
                        0 <= x < s.len() implies vote_entry_wf(#[trigger] s[x]) by {
                        assert(vote_entry_wf(s0[x]));
                        if x == vi as int {
                            assert forall|u: int, v: int|
                                0 <= u < v < ve1.voters@.len() implies (
                                #[trigger] ve1.voters@[u])@ != (#[trigger] ve1.voters@[v])@ by {
                                if v < nv {
                                    assert(ve0.voters@[u]@ != ve0.voters@[v]@);
                                } else {
                                    assert(ve1.voters@[u] == ve0.voters@[u]);
                                    assert(ve0.voters@[u]@ != witness.authority_id@);
                                }
                            }
                        }
                    }
                    assert forall|e2: EventId, a2: Seq<u8>| #[trigger] self.spec_voted(e2, a2) == (
                    pre.spec_voted(e2, a2) || (e2 == event_id && a2
                        == witness.authority_id@)) by {
                        if e2 == event_id {
                            lemma_vote_lookup(s, e2, vi as int);
                            if a2 == witness.authority_id@ {
                                assert(ve1.voters@[nv]@ == a2);
                                assert(found_where(ve1.voters@, |v: AuthorityId| v@ == a2));
                            } else {
                                if found_where(ve1.voters@, |v: AuthorityId| v@ == a2) {
                                    let k = choose|k: int|
                                        0 <= k < ve1.voters@.len() && (|v: AuthorityId| v@ == a2)(
                                            ve1.voters@[k],
                                        );
                                    assert(k < nv);
                                    assert(ve0.voters@[k]@ == a2);
                                    assert(found_where(ve0.voters@, |v: AuthorityId| v@ == a2));
                                }
                                if found_where(ve0.voters@, |v: AuthorityId| v@ == a2) {
                                    let k = choose|k: int|
                                        0 <= k < ve0.voters@.len() && (|v: AuthorityId| v@ == a2)(
                                            ve0.voters@[k],
                                        );
                                    assert(ve1.voters@[k]@ == a2);
                                    assert(found_where(ve1.voters@, |v: AuthorityId| v@ == a2));
                                }
                            }
                        } else {
                            if found_where(s0, vote_key(e2)) {
                                let k = choose|k: int| 0 <= k < s0.len() && vote_key(e2)(s0[k]);
                                lemma_vote_lookup(s0, e2, k);
                                assert(k != vi as int);
                                lemma_vote_lookup(s, e2, k);
                            } else {
                                assert forall|j: int|
                                    0 <= j < s.len() implies !vote_key(e2)(s[j]) by {
                                    assert(!vote_key(e2)(s0[j]));
                                }
                                assert(!found_where(s, vote_key(e2)));
                            }
                        }
                    }
                }
            },
        }
        proof {
            lemma_ledger_frame(*self, mid);
            lemma_meta_frame(*self, pre);
            lemma_validators_frame(*self, pre);
            lemma_votes_frame(mid, pre);
        }
        true
    }

    /// Resolve an authority key to its ordinal position in the current
    /// snapshot, or `None` when it is not an active validator.
    pub fn resolve(&self, authority_id: &AuthorityId) -> (r: Option<usize>)
        ensures
            match r {
                Option::Some(i) => is_position_of(self.spec_validators(), authority_id@, i as int)
                    && self.spec_position(authority_id@) == i as int,
                Option::None => !self.spec_resolved(authority_id@),
            },
            r is Some <==> self.spec_resolved(authority_id@),
    {
        let n = self.validators.len();
        let mut i: usize = 0;
        while i < n
            invariant
                n == self.validators@.len(),
                0 <= i <= n,
                forall|j: int| 0 <= j < i ==> self.spec_validators()[j] != authority_id@,
            decreases n - i,
        {
            if bytes_eq(&self.validators[i], authority_id) {
                proof {
                    assert(self.spec_validators()[i as int] == self.validators@[i as int]@);
                    assert(is_position_of(self.spec_validators(), authority_id@, i as int));
                    let k = choose|k: int|
                        is_position_of(self.spec_validators(), authority_id@, k);
                    lemma_position_unique(self.spec_validators(), authority_id@, k, i as int);
                }
                return Option::Some(i);
            }
            proof {
                assert(self.spec_validators()[i as int] == self.validators@[i as int]@);
            }
            i += 1;
        }
        proof {
            assert forall|k: int|
                0 <= k < self.spec_validators().len() implies self.spec_validators()[k]
                != authority_id@ by {}
        }
        Option::None
    }
}

/// Framing: the signature ledger model depends on the `record` field alone.
proof fn lemma_ledger_frame(a: WitnessRecord, b: WitnessRecord)
    requires
        a.record@ == b.record@,
    ensures
        forall|e: EventId, d: Seq<u8>| #[trigger] a.spec_bucket(e, d) == b.spec_bucket(e, d),
{
    assert forall|e: EventId, d: Seq<u8>| #[trigger] a.spec_bucket(e, d) == b.spec_bucket(
        e,
        d,
    ) by {}
}

/// Framing: the metadata model depends on the `event_meta` field alone.
proof fn lemma_meta_frame(a: WitnessRecord, b: WitnessRecord)
    requires
        a.event_meta@ == b.event_meta@,
    ensures
        forall|e: EventId| #[trigger] a.spec_meta(e) == b.spec_meta(e),
{
    assert forall|e: EventId| #[trigger] a.spec_meta(e) == b.spec_meta(e) by {}
}

/// Framing: the vote-guard model depends on the `has_voted` field alone.
proof fn lemma_votes_frame(a: WitnessRecord, b: WitnessRecord)
    requires
        a.has_voted@ == b.has_voted@,
    ensures
        forall|e: EventId, x: Seq<u8>| #[trigger] a.spec_voted(e, x) == b.spec_voted(e, x),
{
    assert forall|e: EventId, x: Seq<u8>| #[trigger] a.spec_voted(e, x) == b.spec_voted(
        e,
        x,
    ) by {}
}

/// Framing: the authority index model depends on the `validators` field
/// alone.
proof fn lemma_validators_frame(a: WitnessRecord, b: WitnessRecord)
    requires
        a.validators@ == b.validators@,
    ensures
        a.spec_validators() == b.spec_validators(),
{
}

/// Locating an event entry: a match at `i` under unique event ids makes
/// `entry_where` yield exactly that entry.
proof fn lemma_event_lookup(s: Seq<EventEntry>, event_id: EventId, i: int)
    requires
        0 <= i < s.len(),
        s[i].event_id == event_id,
        forall|x: int, y: int|
            0 <= x < y < s.len() ==> (#[trigger] s[x]).event_id != (#[trigger] s[y]).event_id,
    ensures
        found_where(s, event_key(event_id)),
        entry_where(s, event_key(event_id)) == s[i],
{
    assert(event_key(event_id)(s[i]));
    let k = choose|k: int| 0 <= k < s.len() && event_key(event_id)(s[k]);
    if k < i {
        assert(s[k].event_id != s[i].event_id);
    } else if i < k {
        assert(s[i].event_id != s[k].event_id);
    }
}

/// Locating a digest bucket: a match at `i` under unique digests makes
/// `entry_where` yield exactly that bucket.
proof fn lemma_digest_lookup(s: Seq<DigestEntry>, digest: Seq<u8>, i: int)
    requires
        0 <= i < s.len(),
        s[i].digest@ == digest,
        forall|x: int, y: int|
            0 <= x < y < s.len() ==> (#[trigger] s[x]).digest@ != (#[trigger] s[y]).digest@,
    ensures
        found_where(s, digest_key(digest)),
        entry_where(s, digest_key(digest)) == s[i],
{
    assert(digest_key(digest)(s[i]));
    let k = choose|k: int| 0 <= k < s.len() && digest_key(digest)(s[k]);
    if k < i {
        assert(s[k].digest@ != s[i].digest@);
    } else if i < k {
        assert(s[i].digest@ != s[k].digest@);
    }
}

/// Locating a vote-guard entry: a match at `i` under unique event ids makes
/// `entry_where` yield exactly that entry.
proof fn lemma_vote_lookup(s: Seq<VoteEntry>, event_id: EventId, i: int)
    requires
        0 <= i < s.len(),
        s[i].event_id == event_id,
        forall|x: int, y: int|
            0 <= x < y < s.len() ==> (#[trigger] s[x]).event_id != (#[trigger] s[y]).event_id,
    ensures
        found_where(s, vote_key(event_id)),
        entry_where(s, vote_key(event_id)) == s[i],
{
    assert(vote_key(event_id)(s[i]));
    let k = choose|k: int| 0 <= k < s.len() && vote_key(event_id)(s[k]);
    if k < i {
        assert(s[k].event_id != s[i].event_id);
    } else if i < k {
        assert(s[i].event_id != s[k].event_id);
    }
}

/// Locating a metadata entry: a match at `i` under unique event ids makes
/// `entry_where` yield exactly that entry.
proof fn lemma_meta_lookup(s: Seq<(EventId, ([u8; 32], Option<Vec<u8>>))>, event_id: EventId, i: int)
    requires
        0 <= i < s.len(),
        s[i].0 == event_id,
        forall|x: int, y: int|
            0 <= x < y < s.len() ==> (#[trigger] s[x]).0 != (#[trigger] s[y]).0,
    ensures
        found_where(s, meta_key(event_id)),
        entry_where(s, meta_key(event_id)) == s[i],
{
    assert(meta_key(event_id)(s[i]));
    let k = choose|k: int| 0 <= k < s.len() && meta_key(event_id)(s[k]);
    if k < i {
        assert(s[k].0 != s[i].0);
    } else if i < k {
        assert(s[i].0 != s[k].0);
    }
}

/// Law: an authority's first accepted witness for an event is
/// authoritative. After the transition for an accepted witness on
/// `(e, d, a, s)`, the record shows `a` as having voted for `e`; by `note`'s
/// contract every later witness from `a` for `e` — with the same or a
/// different digest — is rejected and leaves the whole record, every digest
/// bucket included, unchanged.
pub proof fn lemma_first_witness_is_authoritative(
    pre: WitnessRecord,
    post: WitnessRecord,
    e: EventId,
    d: Seq<u8>,
    a: Seq<u8>,
    s: Seq<u8>,
)
    requires
        note_accepted(pre, post, e, d, a, s),
    ensures
        post.spec_voted(e, a),
{
    assert(post.spec_voted(e, a) == (pre.spec_voted(e, a) || (e == e && a == a)));
}

/// Law: an accepted witness raises the signature count of exactly its
/// (event, digest) pair by one and leaves every other count unchanged.
/// Together with `has_consensus`'s contract, a pair reaches consensus at
/// threshold `t` exactly when `t` accepted witnesses for it have been noted.
pub proof fn lemma_accepted_witness_raises_count(
    pre: WitnessRecord,
    post: WitnessRecord,
    e: EventId,
    d: Seq<u8>,
    a: Seq<u8>,
    s: Seq<u8>,
)
    requires
        note_accepted(pre, post, e, d, a, s),
    ensures
        post.spec_count(e, d) == pre.spec_count(e, d) + 1,
        forall|e2: EventId, d2: Seq<u8>|
            !(e2 == e && d2 == d) ==> #[trigger] post.spec_count(e2, d2) == pre.spec_count(e2, d2),
{
    assert forall|e2: EventId, d2: Seq<u8>|
        !(e2 == e && d2 == d) implies #[trigger] post.spec_count(e2, d2) == pre.spec_count(
        e2,
        d2,
    ) by {
        assert(post.spec_bucket(e2, d2) == pre.spec_bucket(e2, d2));
    }
}

/// Law: a bucket position carries a recorded signature exactly when some
/// (position, signature) pair for it stands in the bucket. So the dense
/// array `signatures_for` builds is non-placeholder exactly at the positions
/// of authorities whose witness for the pair was accepted.
pub proof fn lemma_bucket_position_filled(b: Seq<(int, Seq<u8>)>, pos: int)
    ensures
        (last_sig_at(b, pos) is Some) <==> exists|k: int|
            0 <= k < b.len() && (#[trigger] b[k]).0 == pos,
    decreases b.len(),
{
    if b.len() == 0 {
    } else if b.last().0 == pos {
        assert(b[b.len() - 1].0 == pos);
    } else {
        lemma_bucket_position_filled(b.drop_last(), pos);
        if exists|k: int| 0 <= k < b.len() && (#[trigger] b[k]).0 == pos {
            let k = choose|k: int| 0 <= k < b.len() && (#[trigger] b[k]).0 == pos;
            assert(k < b.len() - 1);
            assert(b.drop_last()[k].0 == pos);
        }
        if exists|k: int| 0 <= k < b.drop_last().len() && (#[trigger] b.drop_last()[k]).0 == pos {
            let k = choose|k: int|
                0 <= k < b.drop_last().len() && (#[trigger] b.drop_last()[k]).0 == pos;
            assert(b[k].0 == pos);
        }
    }
}

/// Law: once an event's ledger entry is gone — as after `clear` — no digest
/// of it can reach a positive threshold until new witnesses arrive.
pub proof fn lemma_cleared_event_has_no_consensus(
    w: WitnessRecord,
    e: EventId,
    d: Seq<u8>,
    threshold: usize,
)
    requires
        w.spec_bucket(e, d) is None,
        threshold >= 1,
    ensures
        !(w.spec_count(e, d) >= threshold),
{
}

/// A position of `a` in `vs` is unique: only the first index qualifies.
pub proof fn lemma_position_unique(vs: Seq<Seq<u8>>, a: Seq<u8>, i1: int, i2: int)
    requires
        is_position_of(vs, a, i1),
        is_position_of(vs, a, i2),
    ensures
        i1 == i2,
{
    if i1 < i2 {
        assert(vs[i1] != a);
    } else if i2 < i1 {
        assert(vs[i2] != a);
    }
}

impl Default for WitnessRecord {
    /// An empty record, as `WitnessRecord::new` builds.
    fn default() -> (r: WitnessRecord)
        ensures
            r.wf(),
            r.spec_validators() == Seq::<Seq<u8>>::empty(),
            forall|e: EventId, d: Seq<u8>| r.spec_bucket(e, d) is None,
            forall|e: EventId, a: Seq<u8>| !r.spec_voted(e, a),
            forall|e: EventId| r.spec_meta(e) is None,
    {
        WitnessRecord::new()
    }
}

/// Element-wise equality of two fixed-width byte values.
fn bytes_eq<const N: usize>(a: &[u8; N], b: &[u8; N]) -> (r: bool)
    ensures
        r == (a@ == b@),
{
    let mut k: usize = 0;
    while k < N
        invariant
            0 <= k <= N,
            forall|j: int| 0 <= j < k ==> a@[j] == b@[j],
        decreases N - k,
    {
        if a[k] != b[k] {
            assert(a@[k as int] != b@[k as int]);
            return false;
        }
        k += 1;
    }
    proof {
        assert(a@ =~= b@);
    }
    true
}

/// Index of the event entry for `event_id`, if one exists.
fn find_event_index(record: &Vec<EventEntry>, event_id: EventId) -> (r: Option<usize>)
    ensures
        match r {
            Option::Some(i) => i < record@.len() && record@[i as int].event_id == event_id,
            Option::None => forall|j: int|
                0 <= j < record@.len() ==> (#[trigger] record@[j]).event_id != event_id,
        },
{
    let n = record.len();
    let mut i: usize = 0;
    while i < n
        invariant
            n == record@.len(),
            0 <= i <= n,
            forall|j: int| 0 <= j < i ==> (#[trigger] record@[j]).event_id != event_id,
        decreases n - i,
    {
        if record[i].event_id == event_id {
            return Option::Some(i);
        }
        i += 1;
    }
    Option::None
}

/// Index of the digest bucket for `digest`, if one exists.
fn find_digest_index(digests: &Vec<DigestEntry>, digest: &[u8; 32]) -> (r: Option<usize>)
    ensures
        match r {
            Option::Some(i) => i < digests@.len() && digests@[i as int].digest@ == digest@,
            Option::None => forall|j: int|
                0 <= j < digests@.len() ==> (#[trigger] digests@[j]).digest@ != digest@,
        },
{
    let n = digests.len();
    let mut i: usize = 0;
    while i < n
        invariant
            n == digests@.len(),
            0 <= i <= n,
            forall|j: int| 0 <= j < i ==> (#[trigger] digests@[j]).digest@ != digest@,
        decreases n - i,
    {
        if bytes_eq(&digests[i].digest, digest) {
            return Option::Some(i);
        }
        i += 1;
    }
    Option::None
}

/// Index of the vote-guard entry for `event_id`, if one exists.
fn find_vote_index(has_voted: &Vec<VoteEntry>, event_id: EventId) -> (r: Option<usize>)
    ensures
        match r {
            Option::Some(i) => i < has_voted@.len() && has_voted@[i as int].event_id == event_id,
            Option::None => forall|j: int|
                0 <= j < has_voted@.len() ==> (#[trigger] has_voted@[j]).event_id != event_id,
        },
{
    let n = has_voted.len();
    let mut i: usize = 0;
    while i < n
        invariant
            n == has_voted@.len(),
            0 <= i <= n,
            forall|j: int| 0 <= j < i ==> (#[trigger] has_voted@[j]).event_id != event_id,
        decreases n - i,
    {
        if has_voted[i].event_id == event_id {
            return Option::Some(i);
        }
        i += 1;
    }
    Option::None
}

/// Index of the metadata entry for `event_id`, if one exists.
fn find_meta_index(event_meta: &Vec<(EventId, ([u8; 32], Option<Vec<u8>>))>, event_id: EventId) -> (r:
    Option<usize>)
    ensures
        match r {
            Option::Some(i) => i < event_meta@.len() && event_meta@[i as int].0 == event_id,
            Option::None => forall|j: int|
                0 <= j < event_meta@.len() ==> (#[trigger] event_meta@[j]).0 != event_id,
        },
{
    let n = event_meta.len();
    let mut i: usize = 0;
    while i < n
        invariant
            n == event_meta@.len(),
            0 <= i <= n,
            forall|j: int| 0 <= j < i ==> (#[trigger] event_meta@[j]).0 != event_id,
        decreases n - i,
    {
        if event_meta[i].0 == event_id {
            return Option::Some(i);
        }
        i += 1;
    }
    Option::None
}

/// Whether the authority key `a` occurs among `voters`.
fn voters_contain(voters: &Vec<AuthorityId>, a: &AuthorityId) -> (r: bool)
    ensures
        r == exists|j: int| 0 <= j < voters@.len() && (#[trigger] voters@[j])@ == a@,
{
    let n = voters.len();
    let mut i: usize = 0;
    while i < n
        invariant
            n == voters@.len(),
            0 <= i <= n,
            forall|j: int| 0 <= j < i ==> (#[trigger] voters@[j])@ != a@,
        decreases n - i,
    {
        if bytes_eq(&voters[i], a) {
            assert((voters@[i as int])@ == a@);
            return true;
        }
        i += 1;
    }
    false
}

} // verus!
