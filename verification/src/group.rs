//! A group of nodes that run one task together: what each records of itself, what it
//! makes of the records of the others, and how all reports become visible at once.

use vstd::prelude::*;
use crate::accelerator::places;
use crate::error::{
    first_fault, lemma_fault_step, lemma_first_fault, lemma_no_fault, outcome, Error,
};
use crate::model::fault;
use crate::node::{ContextView, NodeContext};
use crate::path::{below, join_path, named_parts, parts, same_path, Part};
use crate::text::{
    decimal, glue, glue3, is_digit, joined, lemma_decimal_reads_back, lemma_last_piece, number,
    same, text_of,
};

verus! {

// -------------------------------------------------------------- records

/// What a node records of itself.
#[derive(Debug)]
pub struct Member {
    pub task_id: String,
    pub context: NodeContext,
    pub phase: String,
    pub sequence: u64,
    pub error: Option<String>,
}

pub struct MemberView {
    pub task_id: Seq<char>,
    pub context: ContextView,
    pub phase: Seq<char>,
    pub sequence: nat,
    pub error: Option<Seq<char>>,
}

impl View for Member {
    type V = MemberView;

    open spec fn view(&self) -> MemberView {
        MemberView {
            task_id: self.task_id@,
            context: self.context@,
            phase: self.phase@,
            sequence: self.sequence as nat,
            error: text_of(self.error),
        }
    }
}

/// What is found where a node should have left its record.
#[derive(Debug)]
pub enum Record {
    /// Nothing yet.
    Missing,
    /// Something that cannot be read, and why.
    Unreadable(String),
    Found(Member),
}

/// What is found where a node should have left its record, as a model.
pub enum RecordView {
    Missing,
    Unreadable(Seq<char>),
    Found(MemberView),
}

impl View for Record {
    type V = RecordView;

    open spec fn view(&self) -> RecordView {
        match self {
            Record::Missing => RecordView::Missing,
            Record::Unreadable(why) => RecordView::Unreadable(why@),
            Record::Found(m) => RecordView::Found(m@),
        }
    }
}

pub open spec fn records_view(v: Seq<Record>) -> Seq<RecordView> {
    v.map_values(|r: Record| r@)
}

/// The phases that a node goes through.
pub open spec fn known_phase(phase: Seq<char>) -> bool {
    phase == "preparing"@ || phase == "ready"@ || phase == "prepared"@ || phase == "publishing"@
        || phase == "completed"@ || phase == "failed"@
}

/// Whether a record is of the same task, run and meeting place as one's own, by the node
/// of that rank.
pub open spec fn same_run(own: MemberView, peer: MemberView, rank: nat) -> bool {
    &&& peer.task_id == own.task_id
    &&& peer.context.run_id == own.context.run_id
    &&& peer.context.node_count == own.context.node_count
    &&& peer.context.node_rank == rank
    &&& peer.context.master_addr == own.context.master_addr
    &&& peer.context.master_port == own.context.master_port
}

/// Whether a node before that rank goes by the same identity.
pub open spec fn identity_taken(records: Seq<RecordView>, rank: int) -> bool {
    exists|k: int|
        0 <= k < rank && (#[trigger] records[k]) is Found && records[k]->Found_0.context.node_id
            == records[rank]->Found_0.context.node_id
}

/// What is wrong with the record of a rank, if anything is.
pub open spec fn record_check(own: MemberView, records: Seq<RecordView>, rank: int) -> Result<
    (),
    Seq<Seq<char>>,
> {
    match records[rank] {
        RecordView::Missing => Ok(()),
        RecordView::Unreadable(why) => fault(why),
        RecordView::Found(peer) => if !same_run(own, peer, rank as nat) {
            fault(
                "node "@ + decimal(rank as nat) + " has a different task or rendezvous context"@,
            )
        } else if identity_taken(records, rank) {
            fault("duplicate node identity"@)
        } else if !known_phase(peer.phase) {
            fault("invalid peer phase"@)
        } else if peer.phase == "failed"@ {
            fault(
                "node "@ + decimal(rank as nat) + " failed: "@ + match peer.error {
                    Some(why) => why,
                    None => "unknown failure"@,
                },
            )
        } else {
            Ok(())
        },
    }
}

/// What is wrong with the records of a group, in the order of the ranks.
pub open spec fn records_check(own: MemberView, records: Seq<RecordView>) -> Result<
    (),
    Seq<Seq<char>>,
> {
    first_fault(places(records.len()), |rank: int| record_check(own, records, rank))
}

fn phase_known(phase: &str) -> (r: bool)
    ensures
        r == known_phase(phase@),
{
    same(phase, "preparing") || same(phase, "ready") || same(phase, "prepared") || same(
        phase,
        "publishing",
    ) || same(phase, "completed") || same(phase, "failed")
}

fn is_taken(records: &Vec<Record>, rank: usize, node_id: &str) -> (r: bool)
    requires
        rank < records@.len(),
        records_view(records@)[rank as int] matches RecordView::Found(m) && m.context.node_id
            == node_id@,
    ensures
        r == identity_taken(records_view(records@), rank as int),
{
    let ghost all = records_view(records@);
    let mut k: usize = 0;
    while k < rank
        invariant
            k <= rank < records@.len(),
            all == records_view(records@),
            all[rank as int] matches RecordView::Found(m) && m.context.node_id == node_id@,
            forall|j: int|
                0 <= j < k ==> !((#[trigger] all[j]) is Found && all[j]->Found_0.context.node_id
                    == node_id@),
        decreases rank - k,
    {
        assert(all[k as int] == records@[k as int]@);
        if let Record::Found(m) = &records[k] {
            if same(m.context.node_id.as_str(), node_id) {
                assert(all[k as int] is Found);
                return true;
            }
        }
        k += 1;
    }
    false
}

fn check_record(own: &Member, records: &Vec<Record>, rank: usize) -> (r: Result<(), Error>)
    requires
        rank < records@.len(),
        records@.len() <= u32::MAX,
    ensures
        outcome(r) == record_check(own@, records_view(records@), rank as int),
{
    assert(records_view(records@)[rank as int] == records@[rank as int]@);
    match &records[rank] {
        Record::Missing => Ok(()),
        Record::Unreadable(why) => Err(Error::of(why.clone())),
        Record::Found(peer) => {
            let c = &peer.context;
            let o = &own.context;
            if !(same(peer.task_id.as_str(), own.task_id.as_str()) && same(
                c.run_id.as_str(),
                o.run_id.as_str(),
            ) && c.node_count == o.node_count && c.node_rank as u64 == rank as u64 && same(
                c.master_addr.as_str(),
                o.master_addr.as_str(),
            ) && c.master_port == o.master_port) {
                return Err(
                    Error::of(
                        glue3(
                            "node ",
                            number(rank as u64).as_str(),
                            " has a different task or rendezvous context",
                        ),
                    ),
                );
            }
            if is_taken(records, rank, c.node_id.as_str()) {
                return Err(Error::new("duplicate node identity"));
            }
            if !phase_known(peer.phase.as_str()) {
                return Err(Error::new("invalid peer phase"));
            }
            if same(peer.phase.as_str(), "failed") {
                let head = glue3("node ", number(rank as u64).as_str(), " failed: ");
                let why = match &peer.error {
                    Some(e) => e.as_str(),
                    None => "unknown failure",
                };
                return Err(Error::of(glue(head.as_str(), why)));
            }
            Ok(())
        },
    }
}

/// Whether the records of a group go together with one's own. Those of all ranks are
/// given, in the order of the ranks.
pub fn check_records(own: &Member, records: &Vec<Record>) -> (r: Result<(), Error>)
    requires
        records@.len() <= u32::MAX,
    ensures
        outcome(r) == records_check(own@, records_view(records@)),
{
    let ghost all = records_view(records@);
    let ghost check = |rank: int| record_check(own@, all, rank);
    let ghost ranks = places(records@.len());
    let mut i: usize = 0;
    assert(ranks.take(0).len() == 0);
    while i < records.len()
        invariant
            records@.len() <= u32::MAX,
            all == records_view(records@),
            ranks == places(records@.len()),
            check == (|rank: int| record_check(own@, all, rank)),
            i <= records@.len(),
            first_fault(ranks.take(i as int), check) is Ok,
        decreases records.len() - i,
    {
        proof {
            lemma_fault_step(ranks, check, i as int);
            assert(ranks[i as int] == i);
        }
        match check_record(own, records, i) {
            Ok(_) => {},
            Err(e) => {
                return Err(e);
            },
        }
        i += 1;
    }
    assert(ranks.take(ranks.len() as int) =~= ranks);
    Ok(())
}

// ------------------------------------------------------ one's own record

/// A record in another phase. A node that has failed stays so.
pub open spec fn advanced(m: MemberView, phase: Seq<char>) -> Result<MemberView, Seq<Seq<char>>> {
    match m.error {
        Some(why) => Err(seq![why]),
        None => Ok(MemberView { phase, ..m }),
    }
}

/// The record of a node that fails: the first failure stays, and nothing changes once
/// the reports are visible.
pub open spec fn after_failure(m: MemberView, why: Seq<char>, published: bool) -> MemberView {
    if published || m.error is Some {
        m
    } else {
        MemberView { phase: "failed"@, error: Some(why), ..m }
    }
}

impl Member {
    /// The first record of a node.
    pub fn new(task_id: &str, context: &NodeContext) -> (r: Member)
        ensures
            r@ == (MemberView {
                task_id: task_id@,
                context: context@,
                phase: "preparing"@,
                sequence: 0,
                error: None,
            }),
    {
        Member {
            task_id: task_id.to_owned(),
            context: context.copy(),
            phase: "preparing".to_owned(),
            sequence: 0,
            error: None,
        }
    }

    /// Goes on to another phase.
    pub fn advance(&mut self, phase: &str) -> (r: Result<(), Error>)
        ensures
            match r {
                Ok(_) => advanced(old(self)@, phase@) == Ok::<MemberView, Seq<Seq<char>>>(
                    final(self)@,
                ),
                Err(e) => advanced(old(self)@, phase@) == Err::<MemberView, Seq<Seq<char>>>(e@)
                    && *final(self) == *old(self),
            },
    {
        if let Some(why) = &self.error {
            return Err(Error::of(why.clone()));
        }
        self.phase = phase.to_owned();
        Ok(())
    }

    /// Records a failure. Tells whether the record has changed.
    pub fn fail(&mut self, why: &str, published: bool) -> (r: bool)
        ensures
            final(self)@ == after_failure(old(self)@, why@, published),
            r == (!published && old(self)@.error is None),
    {
        if published || self.error.is_some() {
            return false;
        }
        self.phase = "failed".to_owned();
        self.error = Some(why.to_owned());
        true
    }

    /// One more sign of life.
    pub fn beat(&mut self)
        requires
            old(self)@.sequence < u64::MAX,
        ensures
            final(self)@ == (MemberView { sequence: old(self)@.sequence + 1, ..old(self)@ }),
    {
        self.sequence = self.sequence + 1;
    }
}

// ------------------------------------------------------- signs of life

/// The last sign of life of each node, and when it was first seen, in milliseconds.
pub struct HeartbeatView {
    pub seen: Seq<(Option<u64>, u64)>,
    pub timeout_seconds: u64,
}

/// What one record tells: a number that was not seen before is a sign of life. A node
/// that has completed gives none, and needs none.
pub open spec fn heard(last: (Option<u64>, u64), record: RecordView, now: u64) -> (
    Option<u64>,
    u64,
) {
    match record {
        RecordView::Found(m) => if m.phase != "completed"@ && (last.0 is None || last.0->0
            != m.sequence) {
            (Some(m.sequence as u64), now)
        } else {
            last
        },
        _ => last,
    }
}

/// The seconds since a moment.
pub open spec fn seconds_since(then: u64, now: u64) -> nat {
    if now >= then {
        ((now - then) / 1000) as nat
    } else {
        0
    }
}

/// Whether a node has been silent for too long.
pub open spec fn expired(last: (Option<u64>, u64), record: RecordView, now: u64, timeout: u64) -> bool {
    !(record matches RecordView::Found(m) && m.phase == "completed"@) && seconds_since(last.1, now)
        >= timeout
}

pub open spec fn heard_all(
    seen: Seq<(Option<u64>, u64)>,
    records: Seq<RecordView>,
    now: u64,
) -> Seq<(Option<u64>, u64)> {
    Seq::new(seen.len(), |i: int| heard(seen[i], records[i], now))
}

/// The first node that has been silent for too long.
pub open spec fn silence_check(
    seen: Seq<(Option<u64>, u64)>,
    records: Seq<RecordView>,
    now: u64,
    timeout: u64,
) -> Result<(), Seq<Seq<char>>> {
    first_fault(
        places(seen.len()),
        |rank: int|
            if expired(seen[rank], records[rank], now, timeout) {
                fault("node "@ + decimal(rank as nat) + " missing or heartbeat expired"@)
            } else {
                Ok(())
            },
    )
}

/// The signs of life of a group.
#[derive(Debug)]
pub struct Heartbeats {
    pub seen: Vec<(Option<u64>, u64)>,
    pub timeout_seconds: u64,
}

impl View for Heartbeats {
    type V = HeartbeatView;

    open spec fn view(&self) -> HeartbeatView {
        HeartbeatView { seen: self.seen@, timeout_seconds: self.timeout_seconds }
    }
}

impl Heartbeats {
    /// Nothing was seen of any node yet; the time of each runs from now.
    pub fn new(nodes: u32, timeout_seconds: u64, now: u64) -> (r: Heartbeats)
        ensures
            r@.seen == Seq::new(nodes as nat, |i: int| (None::<u64>, now)),
            r@.timeout_seconds == timeout_seconds,
    {
        let mut seen: Vec<(Option<u64>, u64)> = Vec::new();
        let mut i: u32 = 0;
        while i < nodes
            invariant
                i <= nodes,
                seen@.len() == i,
                forall|k: int| 0 <= k < i ==> #[trigger] seen@[k] == (None::<u64>, now),
            decreases nodes - i,
        {
            seen.push((None, now));
            i += 1;
        }
        assert(seen@ =~= Seq::new(nodes as nat, |i: int| (None::<u64>, now)));
        Heartbeats { seen, timeout_seconds }
    }

    /// Takes the records of all ranks at a moment, and tells whether a node has been
    /// silent for too long.
    pub fn observe(&mut self, records: &Vec<Record>, now: u64) -> (r: Result<(), Error>)
        requires
            records@.len() == old(self)@.seen.len(),
            records@.len() <= u32::MAX,
        ensures
            final(self)@.seen == heard_all(old(self)@.seen, records_view(records@), now),
            final(self)@.timeout_seconds == old(self)@.timeout_seconds,
            outcome(r) == silence_check(
                final(self)@.seen,
                records_view(records@),
                now,
                old(self)@.timeout_seconds,
            ),
            old(self)@.timeout_seconds > 0 && (forall|i: int|
                0 <= i < records@.len() ==> (#[trigger] records@[i] matches Record::Found(m) && (
                m.phase@ == "completed"@ || old(self)@.seen[i].0 != Some(m.sequence)))) ==> r is Ok,
    {
        proof {
            lemma_signs_of_life(self@, records@, now);
        }
        let ghost all = records_view(records@);
        let ghost start = self.seen@;
        let mut i: usize = 0;
        while i < records.len()
            invariant
                all == records_view(records@),
                i <= records@.len(),
                start.len() == records@.len(),
                self.seen@.len() == records@.len(),
                self.timeout_seconds == old(self).timeout_seconds,
                forall|k: int|
                    0 <= k < i ==> #[trigger] self.seen@[k] == heard(start[k], all[k], now),
                forall|k: int| i <= k < start.len() ==> #[trigger] self.seen@[k] == start[k],
            decreases records.len() - i,
        {
            assert(all[i as int] == records@[i as int]@);
            if let Record::Found(m) = &records[i] {
                let fresh = match self.seen[i].0 {
                    Some(n) => n != m.sequence,
                    None => true,
                };
                if !same(m.phase.as_str(), "completed") && fresh {
                    self.seen.set(i, (Some(m.sequence), now));
                }
            }
            i += 1;
        }
        assert(self.seen@ =~= heard_all(start, all, now));
        let timeout = self.timeout_seconds;
        let ghost ranks = places(self.seen@.len());
        let ghost last = self.seen@;
        let ghost check = |rank: int|
            if expired(last[rank], all[rank], now, timeout) {
                fault("node "@ + decimal(rank as nat) + " missing or heartbeat expired"@)
            } else {
                Ok(())
            };
        let mut k: usize = 0;
        assert(ranks.take(0).len() == 0);
        while k < records.len()
            invariant
                all == records_view(records@),
                last == self.seen@,
                ranks == places(last.len()),
                last.len() == records@.len(),
                timeout == self.timeout_seconds,
                self.seen@ == heard_all(start, all, now),
                self.timeout_seconds == old(self).timeout_seconds,
                start == old(self)@.seen,
                check == (|rank: int|
                    if expired(last[rank], all[rank], now, timeout) {
                        fault("node "@ + decimal(rank as nat) + " missing or heartbeat expired"@)
                    } else {
                        Ok(())
                    }),
                k <= records@.len(),
                first_fault(ranks.take(k as int), check) is Ok,
            decreases records.len() - k,
        {
            proof {
                lemma_fault_step(ranks, check, k as int);
                assert(ranks[k as int] == k);
                assert(all[k as int] == records@[k as int]@);
            }
            let done = match &records[k] {
                Record::Found(m) => same(m.phase.as_str(), "completed"),
                _ => false,
            };
            let then = self.seen[k].1;
            let silent: u64 = if now >= then {
                (now - then) / 1000
            } else {
                0
            };
            if !done && silent >= timeout {
                return Err(
                    Error::of(
                        glue3(
                            "node ",
                            number(k as u64).as_str(),
                            " missing or heartbeat expired",
                        ),
                    ),
                );
            }
            k += 1;
        }
        assert(ranks.take(ranks.len() as int) =~= ranks);
        Ok(())
    }

    /// Looks after the group at a moment: the records of all ranks must go together with
    /// one's own, and no node may have been silent for too long.
    pub fn watch(&mut self, own: &Member, records: &Vec<Record>, now: u64) -> (r: Result<(), Error>)
        requires
            records@.len() == old(self)@.seen.len(),
            records@.len() <= u32::MAX,
        ensures
            final(self)@.timeout_seconds == old(self)@.timeout_seconds,
            match records_check(own@, records_view(records@)) {
                Err(e) => outcome(r) == Err::<(), Seq<Seq<char>>>(e) && final(self)@ == old(
                    self,
                )@,
                Ok(_) => final(self)@.seen == heard_all(
                    old(self)@.seen,
                    records_view(records@),
                    now,
                ) && outcome(r) == silence_check(
                    final(self)@.seen,
                    records_view(records@),
                    now,
                    old(self)@.timeout_seconds,
                ),
            },
    {
        match check_records(own, records) {
            Ok(_) => {},
            Err(e) => {
                return Err(e);
            },
        }
        self.observe(records, now)
    }
}

// ------------------------------------------------------------- barriers

/// What the nodes of a group wait for together.
#[derive(Debug, Clone, Copy, PartialEq, Eq, Structural)]
pub enum Barrier {
    Ready,
    Prepared,
    Publishing,
}

/// The phase that a node announces at a barrier.
pub open spec fn barrier_phase(b: Barrier) -> Seq<char> {
    match b {
        Barrier::Ready => "ready"@,
        Barrier::Prepared => "prepared"@,
        Barrier::Publishing => "publishing"@,
    }
}

/// Whether a node in a phase has come to a barrier or gone beyond it.
pub open spec fn has_reached(b: Barrier, phase: Seq<char>) -> bool {
    ||| phase == "publishing"@
    ||| phase == "completed"@
    ||| b != Barrier::Publishing && phase == "prepared"@
    ||| b == Barrier::Ready && phase == "ready"@
}

/// Whether every node has come to a barrier.
pub open spec fn all_reached(b: Barrier, records: Seq<RecordView>) -> bool {
    forall|i: int|
        0 <= i < records.len() ==> (#[trigger] records[i] matches RecordView::Found(m)
            && has_reached(b, m.phase))
}

/// Whether a node may go on behind a barrier. It need not wait where the reports are
/// visible for good, and does not wait where it was cancelled.
pub open spec fn wait_result(
    b: Barrier,
    committed: bool,
    cancelled: bool,
    own: MemberView,
    records: Seq<RecordView>,
    elapsed_seconds: nat,
    timeout_seconds: nat,
) -> Result<bool, Seq<Seq<char>>> {
    if committed {
        Ok(true)
    } else if cancelled {
        Err(seq!["group cancelled or peer failed"@])
    } else {
        match records_check(own, records) {
            Err(e) => Err(e),
            Ok(_) => if all_reached(b, records) {
                Ok(true)
            } else if b == Barrier::Ready && elapsed_seconds >= timeout_seconds {
                Err(seq!["timed out waiting for all nodes to become ready"@])
            } else {
                Ok(false)
            },
        }
    }
}

fn reached(b: Barrier, phase: &str) -> (r: bool)
    ensures
        r == has_reached(b, phase@),
{
    same(phase, "publishing") || same(phase, "completed") || (b != Barrier::Publishing && same(
        phase,
        "prepared",
    )) || (b == Barrier::Ready && same(phase, "ready"))
}

fn everyone_reached(b: Barrier, records: &Vec<Record>) -> (r: bool)
    ensures
        r == all_reached(b, records_view(records@)),
{
    let ghost all = records_view(records@);
    let mut i: usize = 0;
    while i < records.len()
        invariant
            all == records_view(records@),
            i <= records@.len(),
            forall|k: int|
                0 <= k < i ==> (#[trigger] all[k] matches RecordView::Found(m) && has_reached(
                    b,
                    m.phase,
                )),
        decreases records.len() - i,
    {
        assert(all[i as int] == records@[i as int]@);
        let there = match &records[i] {
            Record::Found(m) => reached(b, m.phase.as_str()),
            _ => false,
        };
        if !there {
            return false;
        }
        i += 1;
    }
    true
}

/// Whether a node may go on behind a barrier, at one moment.
fn wait_at(
    b: Barrier,
    committed: bool,
    cancelled: bool,
    own: &Member,
    records: &Vec<Record>,
    elapsed_seconds: u64,
    timeout_seconds: u64,
) -> (r: Result<bool, Error>)
    requires
        records@.len() <= u32::MAX,
    ensures
        match r {
            Ok(go) => wait_result(
                b,
                committed,
                cancelled,
                own@,
                records_view(records@),
                elapsed_seconds as nat,
                timeout_seconds as nat,
            ) == Ok::<bool, Seq<Seq<char>>>(go),
            Err(e) => wait_result(
                b,
                committed,
                cancelled,
                own@,
                records_view(records@),
                elapsed_seconds as nat,
                timeout_seconds as nat,
            ) == Err::<bool, Seq<Seq<char>>>(e@),
        },
{
    if committed {
        return Ok(true);
    }
    if cancelled {
        return Err(Error::new("group cancelled or peer failed"));
    }
    match check_records(own, records) {
        Ok(_) => {},
        Err(e) => {
            return Err(e);
        },
    }
    if everyone_reached(b, records) {
        return Ok(true);
    }
    if b == Barrier::Ready && elapsed_seconds >= timeout_seconds {
        return Err(Error::new("timed out waiting for all nodes to become ready"));
    }
    Ok(false)
}

// ---------------------------------------------------------- publication

/// Whether the reports of a group may be made visible: every node is there, waits for
/// it, and has left its report.
pub open spec fn ready_to_publish(records: Seq<RecordView>, reports: Seq<bool>, rank: int) -> Result<
    (),
    Seq<Seq<char>>,
> {
    match records[rank] {
        RecordView::Found(m) => if m.phase != "publishing"@ {
            fault("member is not ready to publish"@)
        } else if !reports[rank] {
            fault("missing final report"@)
        } else {
            Ok(())
        },
        _ => fault("missing member before report publication"@),
    }
}

pub open spec fn publication_check(
    cancelled: bool,
    own: MemberView,
    records: Seq<RecordView>,
    reports: Seq<bool>,
) -> Result<(), Seq<Seq<char>>> {
    if cancelled {
        fault("group cancelled before report publication"@)
    } else if records_check(own, records) is Err {
        records_check(own, records)
    } else {
        first_fault(places(records.len()), |rank: int| ready_to_publish(records, reports, rank))
    }
}

fn check_publication(
    cancelled: bool,
    own: &Member,
    records: &Vec<Record>,
    reports: &Vec<bool>,
) -> (r: Result<(), Error>)
    requires
        records@.len() <= u32::MAX,
        reports@.len() == records@.len(),
    ensures
        outcome(r) == publication_check(cancelled, own@, records_view(records@), reports@),
{
    if cancelled {
        return Err(Error::new("group cancelled before report publication"));
    }
    match check_records(own, records) {
        Ok(_) => {},
        Err(e) => {
            return Err(e);
        },
    }
    let ghost all = records_view(records@);
    let ghost ranks = places(records@.len());
    let ghost check = |rank: int| ready_to_publish(all, reports@, rank);
    let mut i: usize = 0;
    assert(ranks.take(0).len() == 0);
    while i < records.len()
        invariant
            reports@.len() == records@.len(),
            all == records_view(records@),
            ranks == places(records@.len()),
            check == (|rank: int| ready_to_publish(all, reports@, rank)),
            i <= records@.len(),
            first_fault(ranks.take(i as int), check) is Ok,
            !cancelled,
            records_check(own@, all) is Ok,
        decreases records.len() - i,
    {
        proof {
            lemma_fault_step(ranks, check, i as int);
            assert(ranks[i as int] == i);
            assert(all[i as int] == records@[i as int]@);
        }
        match &records[i] {
            Record::Found(m) => {
                if !same(m.phase.as_str(), "publishing") {
                    return Err(Error::new("member is not ready to publish"));
                }
            },
            _ => {
                return Err(Error::new("missing member before report publication"));
            },
        }
        if !reports[i] {
            return Err(Error::new("missing final report"));
        }
        i += 1;
    }
    assert(ranks.take(ranks.len() as int) =~= ranks);
    Ok(())
}

/// Whether the reports are visible, by where the name for all of them leads.
pub open spec fn visible(link: Option<Seq<char>>) -> bool {
    link matches Some(target) && parts(target) == parts("final"@)
}

/// Whether the reports are visible for good: visible, and every directory of the publication
/// is synchronized.
pub open spec fn visible_for_good(link: Option<Seq<char>>, synchronized: Seq<bool>) -> bool {
    visible(link) && synchronized.len() > 0 && forall|i: int|
        0 <= i < synchronized.len() ==> #[trigger] synchronized[i]
}

/// Whether the reports are visible, by where the name for all of them leads.
pub fn published(link: &Option<String>) -> (r: bool)
    ensures
        r == visible(text_of(*link)),
{
    match link {
        Some(target) => same_path(target.as_str(), "final"),
        None => false,
    }
}

/// Whether the reports are visible for good, by where the name for all of them leads and
/// whether each directory of the publication could be synchronized.
pub fn committed(link: &Option<String>, synchronized: &Vec<bool>) -> (r: bool)
    ensures
        r == visible_for_good(text_of(*link), synchronized@),
{
    if !published(link) || synchronized.len() == 0 {
        return false;
    }
    let mut i: usize = 0;
    while i < synchronized.len()
        invariant
            i <= synchronized@.len(),
            forall|k: int| 0 <= k < i ==> #[trigger] synchronized@[k],
        decreases synchronized.len() - i,
    {
        if !synchronized[i] {
            return false;
        }
        i += 1;
    }
    true
}

/// What has to be done next to end a run.
#[derive(Debug, Clone, Copy, PartialEq, Eq, Structural)]
pub enum Stage {
    /// Ask whether the reports are visible for good.
    AskCommitted,
    /// Open the directories of the publication, and see that they can be synchronized.
    Open,
    /// Record that this node waits for the publication.
    Announce,
    /// Wait until every node waits for it.
    Await,
    /// Take the lock of the decision.
    Decide,
    /// Ask once more whether the reports are visible for good.
    Recheck,
    /// Look at the records and the reports of all nodes.
    Examine,
    /// Make the reports visible.
    Switch,
    /// Record the failure, unless the reports are visible.
    Fail,
    /// Ask whether the reports are visible.
    AskPublished,
    /// Wait until they are visible for good.
    AwaitDurable,
    /// Record that this node has completed.
    Complete,
    /// Nothing.
    Done,
}

/// What came of what had to be done.
#[derive(Debug)]
pub enum Answer {
    /// It is done, or so it is.
    Yes,
    /// It is not so.
    No,
    /// It could not be done.
    Broken(Error),
}

/// What came of what had to be done, as a model.
pub enum AnswerView {
    Yes,
    No,
    Broken(Seq<Seq<char>>),
}

impl View for Answer {
    type V = AnswerView;

    open spec fn view(&self) -> AnswerView {
        match self {
            Answer::Yes => AnswerView::Yes,
            Answer::No => AnswerView::No,
            Answer::Broken(e) => AnswerView::Broken(e@),
        }
    }
}

/// How far the end of a run has come, and what its result is so far.
pub struct EndingView {
    pub stage: Stage,
    pub result: Result<(), Seq<Seq<char>>>,
}

/// The end of a run with a result. A node that runs alone has nobody to wait for.
pub open spec fn ending_of(alone: bool, result: Result<(), Seq<Seq<char>>>) -> EndingView {
    EndingView {
        stage: if alone {
            Stage::Done
        } else if result is Err {
            Stage::Fail
        } else {
            Stage::AskCommitted
        },
        result,
    }
}

/// The stage behind one that can only be done or fail.
pub open spec fn onward(v: EndingView, a: AnswerView, next: Stage) -> EndingView {
    match a {
        AnswerView::Yes => EndingView { stage: next, ..v },
        AnswerView::No => v,
        AnswerView::Broken(e) => EndingView { stage: Stage::Fail, result: Err(e) },
    }
}

/// The stage behind a question.
pub open spec fn parted(v: EndingView, a: AnswerView, yes: Stage, no: Stage) -> EndingView {
    EndingView {
        stage: if a is Yes {
            yes
        } else {
            no
        },
        ..v
    }
}

/// What an answer makes of the end of a run. Once the reports are visible nothing can
/// make the result a failure.
pub open spec fn answered(v: EndingView, a: AnswerView) -> EndingView {
    match v.stage {
        Stage::AskCommitted => parted(v, a, Stage::AskPublished, Stage::Open),
        Stage::Open => onward(v, a, Stage::Announce),
        Stage::Announce => onward(v, a, Stage::Await),
        Stage::Await => onward(v, a, Stage::Decide),
        Stage::Decide => onward(v, a, Stage::Recheck),
        Stage::Recheck => parted(v, a, Stage::AskPublished, Stage::Examine),
        Stage::Examine => onward(v, a, Stage::Switch),
        Stage::Switch => onward(v, a, Stage::AskPublished),
        Stage::Fail => EndingView { stage: Stage::AskPublished, ..v },
        Stage::AskPublished => parted(v, a, Stage::AwaitDurable, Stage::Done),
        Stage::AwaitDurable => parted(v, a, Stage::Complete, Stage::AwaitDurable),
        Stage::Complete => EndingView { stage: Stage::Done, result: Ok(()) },
        Stage::Done => v,
    }
}

/// The end of a run.
pub struct Ending {
    stage: Stage,
    result: Result<(), Error>,
}

impl View for Ending {
    type V = EndingView;

    closed spec fn view(&self) -> EndingView {
        EndingView { stage: self.stage, result: outcome(self.result) }
    }
}

impl Ending {
    /// The end of a run with a result.
    pub fn new(alone: bool, result: Result<(), Error>) -> (r: Ending)
        ensures
            r@ == ending_of(alone, outcome(result)),
    {
        let stage = if alone {
            Stage::Done
        } else if result.is_err() {
            Stage::Fail
        } else {
            Stage::AskCommitted
        };
        Ending { stage, result }
    }

    /// What has to be done next.
    pub fn stage(&self) -> (r: Stage)
        ensures
            r == self@.stage,
    {
        self.stage
    }

    /// The failure that has to be recorded, on one line.
    pub fn failure(&self) -> (r: Option<String>)
        ensures
            text_of(r) == match self@.result {
                Ok(_) => None,
                Err(e) => Some(joined(e, ": "@)),
            },
    {
        match &self.result {
            Ok(_) => None,
            Err(e) => Some(e.detail()),
        }
    }

    /// Takes what came of what had to be done.
    pub fn answer(&mut self, a: Answer)
        ensures
            final(self)@ == answered(old(self)@, a@),
    {
        let yes = matches!(a, Answer::Yes);
        let next = match self.stage {
            Stage::AskCommitted => if yes {
                Stage::AskPublished
            } else {
                Stage::Open
            },
            Stage::Recheck => if yes {
                Stage::AskPublished
            } else {
                Stage::Examine
            },
            Stage::AskPublished => if yes {
                Stage::AwaitDurable
            } else {
                Stage::Done
            },
            Stage::AwaitDurable => if yes {
                Stage::Complete
            } else {
                Stage::AwaitDurable
            },
            Stage::Fail => Stage::AskPublished,
            Stage::Done => Stage::Done,
            Stage::Complete => {
                self.result = Ok(());
                Stage::Done
            },
            Stage::Open | Stage::Announce | Stage::Await | Stage::Decide | Stage::Examine
            | Stage::Switch => {
                let behind = match self.stage {
                    Stage::Open => Stage::Announce,
                    Stage::Announce => Stage::Await,
                    Stage::Await => Stage::Decide,
                    Stage::Decide => Stage::Recheck,
                    Stage::Examine => Stage::Switch,
                    _ => Stage::AskPublished,
                };
                match a {
                    Answer::Yes => behind,
                    Answer::No => self.stage,
                    Answer::Broken(e) => {
                        self.result = Err(e);
                        Stage::Fail
                    },
                }
            },
        };
        self.stage = next;
    }

    /// Looks at the records and the reports of all nodes.
    pub fn examine(
        &mut self,
        cancelled: bool,
        own: &Member,
        records: &Vec<Record>,
        reports: &Vec<bool>,
    )
        requires
            old(self)@.stage == Stage::Examine,
            records@.len() <= u32::MAX,
            reports@.len() == records@.len(),
        ensures
            final(self)@ == answered(
                old(self)@,
                match publication_check(cancelled, own@, records_view(records@), reports@) {
                    Ok(_) => AnswerView::Yes,
                    Err(e) => AnswerView::Broken(e),
                },
            ),
    {
        match check_publication(cancelled, own, records, reports) {
            Ok(_) => self.answer(Answer::Yes),
            Err(e) => self.answer(Answer::Broken(e)),
        }
    }

    /// The result, once nothing is left to be done.
    pub fn finish(self) -> (r: Result<(), Error>)
        requires
            self@.stage == Stage::Done,
        ensures
            outcome(r) == self@.result,
    {
        self.result
    }
}

// ---------------------------------------------------------- preparation

/// What has to be done next to come to the barrier before the publication.
#[derive(Debug, Clone, Copy, PartialEq, Eq, Structural)]
pub enum RoundStage {
    /// Record that this node is prepared.
    Announce,
    /// Wait until every node is.
    Await,
    /// Record the failure.
    Fail,
    /// Nothing.
    Done,
}

pub struct RoundView {
    pub stage: RoundStage,
    pub result: Result<(), Seq<Seq<char>>>,
}

/// A node with a result comes to the barrier only where the result is a success.
pub open spec fn round_of(result: Result<(), Seq<Seq<char>>>) -> RoundView {
    RoundView {
        stage: if result is Err {
            RoundStage::Fail
        } else {
            RoundStage::Announce
        },
        result,
    }
}

/// What an answer makes of the way to the barrier.
pub open spec fn round_answered(v: RoundView, a: AnswerView) -> RoundView {
    match (v.stage, a) {
        (RoundStage::Done, _) => v,
        (RoundStage::Fail, _) => RoundView { stage: RoundStage::Done, ..v },
        (_, AnswerView::No) => v,
        (_, AnswerView::Broken(e)) => RoundView { stage: RoundStage::Fail, result: Err(e) },
        (RoundStage::Announce, AnswerView::Yes) => RoundView { stage: RoundStage::Await, ..v },
        (RoundStage::Await, AnswerView::Yes) => RoundView { stage: RoundStage::Done, ..v },
    }
}

/// The way to the barrier before the publication.
pub struct Round {
    stage: RoundStage,
    result: Result<(), Error>,
}

impl View for Round {
    type V = RoundView;

    closed spec fn view(&self) -> RoundView {
        RoundView { stage: self.stage, result: outcome(self.result) }
    }
}

impl Round {
    pub fn new(result: Result<(), Error>) -> (r: Round)
        ensures
            r@ == round_of(outcome(result)),
    {
        let stage = if result.is_err() {
            RoundStage::Fail
        } else {
            RoundStage::Announce
        };
        Round { stage, result }
    }

    /// What has to be done next.
    pub fn stage(&self) -> (r: RoundStage)
        ensures
            r == self@.stage,
    {
        self.stage
    }

    /// The failure that has to be recorded, on one line.
    pub fn failure(&self) -> (r: Option<String>)
        ensures
            text_of(r) == match self@.result {
                Ok(_) => None,
                Err(e) => Some(joined(e, ": "@)),
            },
    {
        match &self.result {
            Ok(_) => None,
            Err(e) => Some(e.detail()),
        }
    }

    /// Takes what came of what had to be done.
    pub fn answer(&mut self, a: Answer)
        ensures
            final(self)@ == round_answered(old(self)@, a@),
    {
        match self.stage {
            RoundStage::Done => {},
            RoundStage::Fail => {
                self.stage = RoundStage::Done;
            },
            RoundStage::Announce | RoundStage::Await => match a {
                Answer::No => {},
                Answer::Broken(e) => {
                    self.result = Err(e);
                    self.stage = RoundStage::Fail;
                },
                Answer::Yes => {
                    self.stage = if self.stage == RoundStage::Announce {
                        RoundStage::Await
                    } else {
                        RoundStage::Done
                    };
                },
            },
        }
    }

    /// The result, once nothing is left to be done.
    pub fn finish(self) -> (r: Result<(), Error>)
        requires
            self@.stage == RoundStage::Done,
        ensures
            outcome(r) == self@.result,
    {
        self.result
    }
}

// ---------------------------------------------------------------- group

/// Where a node leaves its reports: the one for the time being, and the last one.
#[derive(Debug)]
pub struct ReportPaths {
    pub provisional: String,
    pub candidate: String,
}

/// A node's share in a group.
#[derive(Debug)]
pub struct Shared {
    pub root: String,
    pub member: Member,
}

pub struct SharedView {
    pub root: Seq<char>,
    pub member: MemberView,
}

/// A node in its group. A node that runs alone shares nothing.
pub struct Group {
    shared: Option<Shared>,
    timeout_seconds: u64,
    finished: bool,
}

pub struct GroupView {
    pub shared: Option<SharedView>,
    pub timeout_seconds: u64,
    pub finished: bool,
}

impl View for Group {
    type V = GroupView;

    closed spec fn view(&self) -> GroupView {
        GroupView {
            shared: match self.shared {
                Some(s) => Some(SharedView { root: s.root@, member: s.member@ }),
                None => None,
            },
            timeout_seconds: self.timeout_seconds,
            finished: self.finished,
        }
    }
}

/// A node that joins its group. Only a group of several nodes needs a directory.
pub open spec fn joined_group(
    directory: Option<Seq<char>>,
    context: ContextView,
    task_id: Seq<char>,
    timeout_seconds: u64,
) -> Result<GroupView, Seq<Seq<char>>> {
    if timeout_seconds == 0 {
        Err(seq!["coordination timeout must be positive"@])
    } else if context.node_count == 1 {
        Ok(GroupView { shared: None, timeout_seconds, finished: false })
    } else {
        match directory {
            None => Err(
                seq!["multi-node reference provider requires a shared --coordination-dir"@],
            ),
            Some(d) => Ok(
                GroupView {
                    shared: Some(
                        SharedView {
                            root: below(d, context.run_id),
                            member: MemberView {
                                task_id,
                                context,
                                phase: "preparing"@,
                                sequence: 0,
                                error: None,
                            },
                        },
                    ),
                    timeout_seconds,
                    finished: false,
                },
            ),
        }
    }
}

/// The group in a directory that is named anew.
pub open spec fn in_directory(g: GroupView, root: Seq<char>) -> GroupView {
    GroupView {
        shared: match g.shared {
            Some(s) => Some(SharedView { root, ..s }),
            None => None,
        },
        ..g
    }
}

/// The file that claims the rank of this node.
pub open spec fn claim_file(g: GroupView) -> Option<Seq<char>> {
    match g.shared {
        Some(s) => Some(rank_file(s.root, s.member.context.node_rank, ".claim"@)),
        None => None,
    }
}

/// Whether a node may have its rank, by why the file that claims it could not be made anew, if
/// it could not.
pub open spec fn claim_result(refusal: Option<Seq<char>>) -> Result<(), Seq<Seq<char>>> {
    match refusal {
        None => Ok(()),
        Some(why) => Err(
            seq!["node rank already claimed; use a new run_id for a new attempt"@, why],
        ),
    }
}

/// The group with another record of this node.
pub open spec fn with_member(g: GroupView, m: MemberView) -> GroupView {
    GroupView {
        shared: match g.shared {
            Some(s) => Some(SharedView { member: m, ..s }),
            None => None,
        },
        ..g
    }
}

/// The file of a rank in a directory.
pub open spec fn rank_file(directory: Seq<char>, rank: nat, kind: Seq<char>) -> Seq<char> {
    below(directory, decimal(rank) + kind)
}

/// Where a node leaves its reports.
pub open spec fn report_paths(g: GroupView, local: Seq<char>) -> (Seq<char>, Seq<char>) {
    match g.shared {
        None => (local, local),
        Some(s) => {
            let reports = below(s.root, "reports"@);
            let rank = s.member.context.node_rank;
            (
                rank_file(below(reports, "pending"@), rank, ".json"@),
                rank_file(below(reports, "final"@), rank, ".json"@),
            )
        },
    }
}

impl Group {
    /// Joins the group of a run.
    pub fn join(
        directory: Option<String>,
        context: &NodeContext,
        task_id: &str,
        timeout_seconds: u64,
    ) -> (r: Result<Group, Error>)
        ensures
            outcome(r) == joined_group(text_of(directory), context@, task_id@, timeout_seconds),
    {
        if timeout_seconds == 0 {
            return Err(Error::new("coordination timeout must be positive"));
        }
        if context.node_count == 1 {
            return Ok(Group { shared: None, timeout_seconds, finished: false });
        }
        match directory {
            None => Err(
                Error::new("multi-node reference provider requires a shared --coordination-dir"),
            ),
            Some(d) => {
                let root = join_path(d.as_str(), context.run_id.as_str());
                let member = Member::new(task_id, context);
                Ok(
                    Group {
                        shared: Some(Shared { root, member }),
                        timeout_seconds,
                        finished: false,
                    },
                )
            },
        }
    }

    /// The directory of the group.
    pub fn root(&self) -> (r: Option<String>)
        ensures
            text_of(r) == match self@.shared {
                Some(s) => Some(s.root),
                None => None,
            },
    {
        match &self.shared {
            Some(s) => Some(s.root.clone()),
            None => None,
        }
    }

    /// Names the directory of the group anew, once every link to it is followed.
    pub fn settle(&mut self, root: &str)
        ensures
            final(self)@ == in_directory(old(self)@, root@),
    {
        match self.shared.take() {
            Some(s) => {
                self.shared = Some(Shared { root: root.to_owned(), member: s.member });
            },
            None => {},
        }
    }

    /// The file that claims the rank of this node. It outlives the node, so that a new
    /// attempt cannot take over what an old one has left.
    pub fn claim_path(&self) -> (r: Option<String>)
        ensures
            text_of(r) == claim_file(self@),
    {
        match &self.shared {
            Some(s) => Some(
                rank_path(s.root.as_str(), s.member.context.node_rank, ".claim"),
            ),
            None => None,
        }
    }

    /// Whether this node may have its rank, by why the file that claims it could not be made
    /// anew, if it could not.
    pub fn claim(&self, refusal: Option<String>) -> (r: Result<(), Error>)
        ensures
            outcome(r) == claim_result(text_of(refusal)),
    {
        match refusal {
            None => Ok(()),
            Some(why) => {
                let e = Error::of(why).context(
                    "node rank already claimed; use a new run_id for a new attempt",
                );
                assert(e@ =~= seq![
                    "node rank already claimed; use a new run_id for a new attempt"@,
                    why@,
                ]);
                Err(e)
            },
        }
    }

    /// The file that holds the record of a rank.
    pub fn record_path(&self, rank: u32) -> (r: Option<String>)
        ensures
            text_of(r) == match self@.shared {
                Some(s) => Some(rank_file(s.root, rank as nat, ".json"@)),
                None => None,
            },
    {
        match &self.shared {
            Some(s) => Some(rank_path(s.root.as_str(), rank, ".json")),
            None => None,
        }
    }

    /// The record of this node.
    pub fn member(&self) -> (r: Option<&Member>)
        ensures
            match self@.shared {
                Some(s) => r matches Some(m) && m@ == s.member,
                None => r is None,
            },
    {
        match &self.shared {
            Some(s) => Some(&s.member),
            None => None,
        }
    }

    /// The time that the nodes give each other.
    pub fn timeout(&self) -> (r: u64)
        ensures
            r == self@.timeout_seconds,
    {
        self.timeout_seconds
    }

    fn advance(&mut self, phase: &str) -> (r: Result<(), Error>)
        ensures
            match old(self)@.shared {
                None => r is Ok && final(self)@ == old(self)@,
                Some(s) => match advanced(s.member, phase@) {
                    Ok(m) => r is Ok && final(self)@ == with_member(old(self)@, m),
                    Err(e) => r matches Err(f) && f@ == e && final(self)@ == old(self)@,
                },
            },
    {
        match self.shared.take() {
            None => Ok(()),
            Some(s) => {
                let mut member = s.member;
                let r = member.advance(phase);
                self.shared = Some(Shared { root: s.root, member });
                r
            },
        }
    }

    /// Records that this node has come to a barrier.
    pub fn announce(&mut self, b: Barrier) -> (r: Result<(), Error>)
        ensures
            match old(self)@.shared {
                None => r is Ok && final(self)@ == old(self)@,
                Some(s) => match advanced(s.member, barrier_phase(b)) {
                    Ok(m) => r is Ok && final(self)@ == with_member(old(self)@, m),
                    Err(e) => r matches Err(f) && f@ == e && final(self)@ == old(self)@,
                },
            },
            old(self)@.shared is Some ==> (r is Ok <==> old(self)@.shared->0.member.error is None),
            old(self)@.shared is Some && r is Ok ==> progress(
                final(self)@.shared->0.member.phase,
            ) == threshold(b),
    {
        proof {
            lemma_phases_differ();
        }
        match b {
            Barrier::Ready => self.advance("ready"),
            Barrier::Prepared => self.advance("prepared"),
            Barrier::Publishing => self.advance("publishing"),
        }
    }

    /// Records that this node is ready.
    pub fn ready(&mut self) -> (r: Result<(), Error>)
        ensures
            match old(self)@.shared {
                None => r is Ok && final(self)@ == old(self)@,
                Some(s) => match advanced(s.member, "ready"@) {
                    Ok(m) => r is Ok && final(self)@ == with_member(old(self)@, m),
                    Err(e) => r matches Err(f) && f@ == e && final(self)@ == old(self)@,
                },
            },
    {
        self.announce(Barrier::Ready)
    }

    /// Records that this node has completed.
    pub fn complete(&mut self) -> (r: Result<(), Error>)
        ensures
            match old(self)@.shared {
                None => r is Ok && final(self)@ == old(self)@,
                Some(s) => match advanced(s.member, "completed"@) {
                    Ok(m) => r is Ok && final(self)@ == with_member(old(self)@, m),
                    Err(e) => r matches Err(f) && f@ == e && final(self)@ == old(self)@,
                },
            },
            old(self)@.shared is Some ==> (r is Ok <==> old(self)@.shared->0.member.error is None),
            old(self)@.shared is Some && r is Ok ==> progress(
                final(self)@.shared->0.member.phase,
            ) == 4,
    {
        proof {
            lemma_phases_differ();
        }
        self.advance("completed")
    }

    /// Whether this node may go on behind a barrier, at one moment. A node that runs
    /// alone waits for nobody.
    pub fn wait(
        &self,
        b: Barrier,
        committed: bool,
        cancelled: bool,
        records: &Vec<Record>,
        elapsed_seconds: u64,
    ) -> (r: Result<bool, Error>)
        requires
            records@.len() <= u32::MAX,
        ensures
            ({
                let expected = match self@.shared {
                    Some(s) => wait_result(
                        b,
                        committed,
                        cancelled,
                        s.member,
                        records_view(records@),
                        elapsed_seconds as nat,
                        self@.timeout_seconds as nat,
                    ),
                    None => if cancelled {
                        Err(seq!["group cancelled or peer failed"@])
                    } else {
                        Ok(true)
                    },
                };
                match r {
                    Ok(go) => expected == Ok::<bool, Seq<Seq<char>>>(go),
                    Err(e) => expected == Err::<bool, Seq<Seq<char>>>(e@),
                }
            }),
    {
        match &self.shared {
            Some(s) => wait_at(
                b,
                committed,
                cancelled,
                &s.member,
                records,
                elapsed_seconds,
                self.timeout_seconds,
            ),
            None => if cancelled {
                Err(Error::new("group cancelled or peer failed"))
            } else {
                Ok(true)
            },
        }
    }

    /// Records a failure of this node. Tells whether the group is to be cancelled: it is
    /// not once the reports are visible, and a node that runs alone has no group.
    pub fn fail(&mut self, why: &str, published: bool) -> (r: bool)
        ensures
            match old(self)@.shared {
                None => final(self)@ == old(self)@ && !r,
                Some(s) => final(self)@ == with_member(
                    old(self)@,
                    after_failure(s.member, why@, published),
                ) && r == !published,
            },
            old(self)@.shared is Some && !published ==> r && (final(self)@.shared matches Some(s)
                && s.member.error is Some && (old(self)@.shared->0.member.error is None
                ==> s.member.error == Some(why@) && s.member.phase == "failed"@)),
            old(self)@.shared is Some && published ==> !r && final(self)@ == old(self)@,
    {
        match self.shared.take() {
            None => false,
            Some(s) => {
                let mut member = s.member;
                let _changed = member.fail(why, published);
                self.shared = Some(Shared { root: s.root, member });
                !published
            },
        }
    }

    /// Gives one more sign of life, unless the node was cancelled.
    pub fn beat(&mut self, cancelled: bool) -> (r: Result<(), Error>)
        requires
            old(self)@.shared matches Some(s) ==> s.member.sequence < u64::MAX,
        ensures
            cancelled ==> (r matches Err(e) && e@ == seq!["node cancelled"@]) && final(self)@
                == old(self)@,
            !cancelled ==> r is Ok && match old(self)@.shared {
                None => final(self)@ == old(self)@,
                Some(s) => final(self)@ == with_member(
                    old(self)@,
                    (MemberView { sequence: s.member.sequence + 1, ..s.member }),
                ),
            },
    {
        if cancelled {
            return Err(Error::new("node cancelled"));
        }
        match self.shared.take() {
            None => Ok(()),
            Some(s) => {
                let mut member = s.member;
                member.beat();
                self.shared = Some(Shared { root: s.root, member });
                Ok(())
            },
        }
    }

    /// Where this node leaves its reports.
    pub fn reports(&self, local: &str) -> (r: ReportPaths)
        ensures
            (r.provisional@, r.candidate@) == report_paths(self@, local@),
    {
        match &self.shared {
            None => ReportPaths { provisional: local.to_owned(), candidate: local.to_owned() },
            Some(s) => {
                let reports = join_path(s.root.as_str(), "reports");
                let pending = join_path(reports.as_str(), "pending");
                let last = join_path(reports.as_str(), "final");
                let rank = s.member.context.node_rank;
                ReportPaths {
                    provisional: rank_path(pending.as_str(), rank, ".json"),
                    candidate: rank_path(last.as_str(), rank, ".json"),
                }
            },
        }
    }

    /// The name under which the report of this node is visible to all: it leads to the
    /// report for the time being until all last ones become visible at once.
    pub fn report_reference(&self) -> (r: Option<String>)
        ensures
            text_of(r) == match self@.shared {
                Some(s) => Some(
                    rank_file(
                        below(below(s.root, "reports"@), "current"@),
                        s.member.context.node_rank,
                        ".json"@,
                    ),
                ),
                None => None,
            },
    {
        match &self.shared {
            None => None,
            Some(s) => {
                let reports = join_path(s.root.as_str(), "reports");
                let current = join_path(reports.as_str(), "current");
                Some(rank_path(current.as_str(), s.member.context.node_rank, ".json"))
            },
        }
    }

    /// The way of a result to the barrier before the publication.
    pub fn prepare(&self, result: Result<(), Error>) -> (r: Round)
        ensures
            r@ == round_of(outcome(result)),
    {
        Round::new(result)
    }

    /// The end of the run with a result.
    pub fn finish(&mut self, result: Result<(), Error>) -> (r: Ending)
        ensures
            r@ == ending_of(old(self)@.shared is None, outcome(result)),
            final(self)@ == (GroupView { finished: true, ..old(self)@ }),
    {
        self.finished = true;
        Ending::new(self.shared.is_none(), result)
    }

    /// What a node that stops leaves as its failure, where it has not come to its end.
    pub fn leave(&self) -> (r: Option<String>)
        ensures
            text_of(r) == if self@.shared is Some && !self@.finished {
                Some("node stopped before completing the task"@)
            } else {
                None
            },
    {
        if self.shared.is_some() && !self.finished {
            Some("node stopped before completing the task".to_owned())
        } else {
            None
        }
    }
}

fn rank_path(directory: &str, rank: u32, kind: &str) -> (r: String)
    ensures
        r@ == rank_file(directory@, rank as nat, kind@),
{
    join_path(directory, glue(number(rank as u64).as_str(), kind).as_str())
}

// ----------------------------------------------------------------- laws

/// Records that go together are of one task and one run, each by the node of its rank,
/// with an identity of its own, and none of them has failed.
pub proof fn law_records_agree(own: MemberView, records: Seq<RecordView>)
    requires
        records_check(own, records) is Ok,
    ensures
        forall|i: int|
            0 <= i < records.len() ==> (#[trigger] records[i]) !is Unreadable && (
            records[i] matches RecordView::Found(m) ==> same_run(own, m, i as nat) && m.phase
                != "failed"@),
        forall|i: int, j: int|
            0 <= i < j < records.len() && (#[trigger] records[i]) is Found && (
            #[trigger] records[j]) is Found ==> records[i]->Found_0.context.node_id
                != records[j]->Found_0.context.node_id,
{
    let check = |rank: int| record_check(own, records, rank);
    let ranks = places(records.len());
    lemma_no_fault(ranks, check);
    assert forall|i: int| 0 <= i < records.len() implies (#[trigger] records[i]) !is Unreadable && (
    records[i] matches RecordView::Found(m) ==> same_run(own, m, i as nat) && m.phase
        != "failed"@) by {
        assert(ranks[i] == i);
        assert(check(ranks[i]) is Ok);
    }
    assert forall|i: int, j: int|
        0 <= i < j < records.len() && (#[trigger] records[i]) is Found && (
        #[trigger] records[j]) is Found implies records[i]->Found_0.context.node_id
        != records[j]->Found_0.context.node_id by {
        assert(ranks[j] == j);
        assert(check(ranks[j]) is Ok);
        assert(!identity_taken(records, j));
    }
}

/// Why a file cannot be made anew: it is there already.
pub open spec fn made_anew(there: Set<Seq<char>>, file: Seq<char>, why: Seq<char>) -> Option<
    Seq<char>,
> {
    if there.contains(file) {
        Some(why)
    } else {
        None
    }
}

#[verifier::rlimit(50)]
#[verifier::spinoff_prover]
proof fn lemma_rank_files_differ(directory: Seq<char>, a: nat, b: nat, kind: Seq<char>)
    requires
        a != b,
    ensures
        rank_file(directory, a, kind) != rank_file(directory, b, kind),
{
    lemma_decimal_reads_back(a);
    lemma_decimal_reads_back(b);
    let x = decimal(a) + kind;
    let y = decimal(b) + kind;
    assert(is_digit(decimal(a)[0]) && is_digit(decimal(b)[0]));
    assert(x[0] == decimal(a)[0] && y[0] == decimal(b)[0]);
    assert(x.len() == decimal(a).len() + kind.len());
    assert(y.len() == decimal(b).len() + kind.len());
    if x == y {
        assert(decimal(a).len() == decimal(b).len());
        assert(decimal(a) =~= x.take(decimal(a).len() as int));
        assert(decimal(b) =~= y.take(decimal(b).len() as int));
    }
    let front = if directory.len() == 0 || directory.last() == '/' {
        directory
    } else {
        directory + seq!['/']
    };
    assert(rank_file(directory, a, kind) == front + x);
    assert(rank_file(directory, b, kind) == front + y);
    if front + x == front + y {
        assert(x =~= (front + x).skip(front.len() as int));
        assert(y =~= (front + y).skip(front.len() as int));
    }
}

/// A rank of a run is claimed once and for all: whoever joins the same run in the same directory
/// under the same rank, for whatever task and with whatever patience, needs the same file, and is
/// refused where it is there. Nodes of different ranks need different files. Without a directory
/// nobody joins a group of several nodes.
#[verifier::rlimit(50)]
#[verifier::spinoff_prover]
pub proof fn law_a_rank_is_claimed_once(
    directory: Seq<char>,
    a: ContextView,
    b: ContextView,
    task: Seq<char>,
    other_task: Seq<char>,
    timeout: u64,
    other_timeout: u64,
    leads_to: spec_fn(Seq<char>) -> Seq<char>,
    there: Set<Seq<char>>,
    why: Seq<char>,
)
    requires
        a.run_id == b.run_id,
        a.node_count != 1,
        b.node_count != 1,
        timeout > 0,
        other_timeout > 0,
    ensures
        ({
            let root = leads_to(below(directory, a.run_id));
            let first = joined_group(Some(directory), a, task, timeout);
            let second = joined_group(Some(directory), b, other_task, other_timeout);
            let file = claim_file(in_directory(first->Ok_0, root));
            let other = claim_file(in_directory(second->Ok_0, root));
            &&& first is Ok && second is Ok && file is Some && other is Some
            &&& first->Ok_0.shared->0.root == second->Ok_0.shared->0.root
            &&& a.node_rank == b.node_rank ==> file == other
            &&& a.node_rank == b.node_rank && there.contains(file->0) ==> claim_result(
                made_anew(there, other->0, why),
            ) is Err
            &&& a.node_rank != b.node_rank ==> file != other
            &&& claim_result(made_anew(there, other->0, why)) is Ok <==> !there.contains(other->0)
            &&& joined_group(None, b, other_task, other_timeout) is Err
        }),
{
    if a.node_rank != b.node_rank {
        lemma_rank_files_differ(
            leads_to(below(directory, a.run_id)),
            a.node_rank,
            b.node_rank,
            ".claim"@,
        );
    }
}

/// No workload starts before every node of its group has recorded that it is ready:
/// who may go on behind the barrier, and not because the reports are visible already,
/// has found every node there.
pub proof fn law_nobody_starts_early(
    b: Barrier,
    cancelled: bool,
    own: MemberView,
    records: Seq<RecordView>,
    elapsed_seconds: nat,
    timeout_seconds: nat,
)
    requires
        wait_result(b, false, cancelled, own, records, elapsed_seconds, timeout_seconds) == Ok::<
            bool,
            Seq<Seq<char>>,
        >(true),
    ensures
        !cancelled,
        forall|i: int|
            0 <= i < records.len() ==> (#[trigger] records[i] matches RecordView::Found(m)
                && same_run(own, m, i as nat) && has_reached(b, m.phase)),
{
    law_records_agree(own, records);
}

/// The time to become ready is limited: once it is over, a node goes on or fails.
pub proof fn law_readiness_is_bounded(
    committed: bool,
    cancelled: bool,
    own: MemberView,
    records: Seq<RecordView>,
    elapsed_seconds: nat,
    timeout_seconds: nat,
)
    requires
        elapsed_seconds >= timeout_seconds,
    ensures
        wait_result(
            Barrier::Ready,
            committed,
            cancelled,
            own,
            records,
            elapsed_seconds,
            timeout_seconds,
        ) != Ok::<bool, Seq<Seq<char>>>(false),
{
}

/// A node that has failed keeps its first failure, and comes to no barrier any more.
pub proof fn law_failure_stays(m: MemberView, why: Seq<char>, later: Seq<char>, phase: Seq<char>)
    requires
        m.error is None,
    ensures
        ({
            let failed = after_failure(m, why, false);
            &&& failed.phase == "failed"@
            &&& failed.error == Some(why)
            &&& after_failure(failed, later, false) == failed
            &&& advanced(failed, phase) == Err::<MemberView, Seq<Seq<char>>>(seq![why])
        }),
{
}

/// The failure of one node is the failure of every other that looks at its record.
pub proof fn law_failure_spreads(own: MemberView, records: Seq<RecordView>, rank: int)
    requires
        0 <= rank < records.len(),
        records[rank] matches RecordView::Found(m) && m.phase == "failed"@,
    ensures
        records_check(own, records) is Err,
{
    let check = |r: int| record_check(own, records, r);
    let ranks = places(records.len());
    lemma_no_fault(ranks, check);
    assert(ranks[rank] == rank);
    assert(check(ranks[rank]) is Err);
}

/// A node that gives no new sign of life for the whole time is found out, unless it has
/// completed.
pub proof fn law_silence_is_noticed(
    seen: Seq<(Option<u64>, u64)>,
    records: Seq<RecordView>,
    now: u64,
    timeout: u64,
    rank: int,
)
    requires
        records.len() == seen.len(),
        0 <= rank < seen.len(),
        heard(seen[rank], records[rank], now) == seen[rank],
        !(records[rank] matches RecordView::Found(m) && m.phase == "completed"@),
        seconds_since(seen[rank].1, now) >= timeout,
    ensures
        silence_check(heard_all(seen, records, now), records, now, timeout) is Err,
{
    let last = heard_all(seen, records, now);
    let check = |r: int|
        if expired(last[r], records[r], now, timeout) {
            fault("node "@ + decimal(r as nat) + " missing or heartbeat expired"@)
        } else {
            Ok(())
        };
    let ranks = places(last.len());
    lemma_no_fault(ranks, check);
    assert(ranks[rank] == rank);
    assert(last[rank] == seen[rank]);
    assert(check(ranks[rank]) is Err);
}

/// The reports become visible only where every node of the group waits for it and has
/// left its report, and the group was not cancelled.
pub proof fn law_publication_needs_every_node(
    v: EndingView,
    cancelled: bool,
    own: MemberView,
    records: Seq<RecordView>,
    reports: Seq<bool>,
)
    requires
        v.stage == Stage::Examine,
        answered(
            v,
            match publication_check(cancelled, own, records, reports) {
                Ok(_) => AnswerView::Yes,
                Err(e) => AnswerView::Broken(e),
            },
        ).stage == Stage::Switch,
    ensures
        !cancelled,
        forall|i: int|
            0 <= i < records.len() ==> reports[i] && (#[trigger] records[i] matches
                RecordView::Found(m) && m.phase == "publishing"@ && same_run(own, m, i as nat)),
{
    law_records_agree(own, records);
    let check = |rank: int| ready_to_publish(records, reports, rank);
    let ranks = places(records.len());
    lemma_no_fault(ranks, check);
    assert forall|i: int| 0 <= i < records.len() implies reports[i] && (
    #[trigger] records[i] matches RecordView::Found(m) && m.phase == "publishing"@ && same_run(
        own,
        m,
        i as nat,
    )) by {
        assert(ranks[i] == i);
        assert(check(ranks[i]) is Ok);
    }
}

/// Whether the outcome of a run is settled as a success.
pub open spec fn succeeded_for_good(v: EndingView) -> bool {
    v.stage == Stage::AwaitDurable || v.stage == Stage::Complete || v.stage == Stage::Done
        && v.result is Ok
}

/// Reports that are visible are never followed by a failure: whoever finds them visible
/// ends with a success, whatever went wrong before and whatever is answered after.
pub proof fn law_published_outcome_is_final(v: EndingView, answers: Seq<AnswerView>)
    requires
        v.stage == Stage::AskPublished && answers.len() > 0 && answers[0] is Yes
            || succeeded_for_good(v),
    ensures
        answers.len() > 0 ==> succeeded_for_good(
            answers.fold_left(v, |w: EndingView, a: AnswerView| answered(w, a)),
        ),
    decreases answers.len(),
{
    let step = |w: EndingView, a: AnswerView| answered(w, a);
    if answers.len() > 0 {
        let rest = answers.drop_last();
        assert(answers.fold_left(v, step) == step(rest.fold_left(v, step), answers.last()));
        if rest.len() == 0 {
            assert(rest.fold_left(v, step) == v);
        } else {
            assert(rest[0] == answers[0]);
            law_published_outcome_is_final(v, rest);
        }
    }
}

/// A run of a group fails only where the reports are not visible at its end.
pub proof fn law_failure_means_unpublished(v: EndingView, a: AnswerView)
    requires
        v.stage != Stage::Done,
        answered(v, a).stage == Stage::Done,
        answered(v, a).result is Err,
    ensures
        v.stage == Stage::AskPublished,
        a !is Yes,
{
}

/// How far the end of a run has come after a number of answers.
pub open spec fn ending_after(start: EndingView, answers: Seq<AnswerView>) -> EndingView
    decreases answers.len(),
{
    if answers.len() == 0 {
        start
    } else {
        answered(ending_after(start, answers.drop_last()), answers.last())
    }
}

/// Whether a stage was answered with yes.
pub open spec fn confirmed(
    start: EndingView,
    answers: Seq<AnswerView>,
    i: int,
    stage: Stage,
) -> bool {
    0 <= i < answers.len() && answers[i] is Yes && ending_after(start, answers.take(i)).stage
        == stage
}

/// Whether this node knows the reports to be visible: it has found them so, or has made
/// them so.
pub open spec fn knows_visible(start: EndingView, answers: Seq<AnswerView>, i: int) -> bool {
    ||| confirmed(start, answers, i, Stage::AskCommitted)
    ||| confirmed(start, answers, i, Stage::Recheck)
    ||| confirmed(start, answers, i, Stage::Switch)
    ||| confirmed(start, answers, i, Stage::AskPublished)
}

/// A run of a group ends with a success only where this node has found the reports visible,
/// or has made them visible itself.
pub proof fn law_success_means_visible_reports(
    result: Result<(), Seq<Seq<char>>>,
    answers: Seq<AnswerView>,
)
    requires
        ending_after(ending_of(false, result), answers).stage == Stage::Done,
        ending_after(ending_of(false, result), answers).result is Ok,
    ensures
        exists|i: int| knows_visible(ending_of(false, result), answers, i),
{
    lemma_unseen(ending_of(false, result), answers);
}

/// As long as the reports are not known to be visible, a run without a failure is still on
/// its way to make them so.
proof fn lemma_unseen(start: EndingView, answers: Seq<AnswerView>)
    requires
        start.stage == Stage::AskCommitted && start.result is Ok || start.stage == Stage::Fail
            && start.result is Err,
    ensures
        ({
            let v = ending_after(start, answers);
            ||| exists|i: int| knows_visible(start, answers, i)
            ||| v.result is Err && (v.stage == Stage::Fail || v.stage == Stage::AskPublished
                || v.stage == Stage::Done)
            ||| v.result is Ok && (v.stage == Stage::AskCommitted || v.stage == Stage::Open
                || v.stage == Stage::Announce || v.stage == Stage::Await || v.stage
                == Stage::Decide || v.stage == Stage::Recheck || v.stage == Stage::Examine
                || v.stage == Stage::Switch)
        }),
    decreases answers.len(),
{
    if answers.len() > 0 {
        let n = answers.len() - 1;
        let front = answers.drop_last();
        lemma_unseen(start, front);
        if exists|i: int| knows_visible(start, front, i) {
            let i = choose|i: int| knows_visible(start, front, i);
            assert(front.take(i) =~= answers.take(i));
            assert(knows_visible(start, answers, i));
        } else {
            assert(answers.take(n) =~= front);
            assert(answers[n] == answers.last());
            let w = ending_after(start, front);
            if answers.last() is Yes && (w.stage == Stage::AskCommitted || w.stage
                == Stage::Recheck || w.stage == Stage::Switch || w.stage == Stage::AskPublished) {
                assert(knows_visible(start, answers, n));
            }
        }
    }
}

/// A node that comes to its end with a failure ends with that failure where the reports are
/// not visible. Where they are, it ends with a success, and only once every directory of the
/// publication is synchronized.
pub proof fn law_failed_nodes_follow_the_reports(
    why: Seq<Seq<char>>,
    answers: Seq<AnswerView>,
)
    requires
        answers.len() >= 2,
    ensures
        ({
            let start = ending_of(false, Err(why));
            let end = ending_after(start, answers);
            &&& !(answers[1] is Yes) ==> end == (EndingView { stage: Stage::Done, result: Err(why) })
            &&& answers[1] is Yes ==> succeeded_for_good(end)
            &&& end.stage == Stage::Done && end.result is Ok ==> exists|i: int|
                confirmed(start, answers, i, Stage::AwaitDurable)
        }),
    decreases answers.len(),
{
    let start = ending_of(false, Err(why));
    let front = answers.drop_last();
    let n = answers.len() - 1;
    assert(answers.take(n) =~= front);
    if answers.len() == 2 {
        assert(front.drop_last() =~= Seq::empty());
        assert(ending_after(start, front.drop_last()) == start);
        assert(ending_after(start, front).stage == Stage::AskPublished);
    } else {
        law_failed_nodes_follow_the_reports(why, front);
        assert(front[1] == answers[1]);
        let w = ending_after(start, front);
        if w.stage == Stage::Done && w.result is Ok {
            let i = choose|i: int| confirmed(start, front, i, Stage::AwaitDurable);
            assert(front.take(i) =~= answers.take(i));
            assert(confirmed(start, answers, i, Stage::AwaitDurable));
        } else if answers[1] is Yes {
            if w.stage == Stage::Complete {
                lemma_complete_is_durable(start, front);
                let i = choose|i: int| confirmed(start, front, i, Stage::AwaitDurable);
                assert(front.take(i) =~= answers.take(i));
                assert(confirmed(start, answers, i, Stage::AwaitDurable));
            }
        }
    }
}

/// Nobody completes before the reports are visible for good.
proof fn lemma_complete_is_durable(start: EndingView, answers: Seq<AnswerView>)
    requires
        start.stage != Stage::Complete,
        ending_after(start, answers).stage == Stage::Complete,
    ensures
        exists|i: int| confirmed(start, answers, i, Stage::AwaitDurable),
{
    let n = answers.len() - 1;
    let front = answers.drop_last();
    assert(answers.take(n) =~= front);
    assert(answers[n] == answers.last());
    assert(confirmed(start, answers, n, Stage::AwaitDurable));
}

// ------------------------------------------------- what each answer says

/// How far a phase is on the way of a node: a node becomes ready, prepares its report, waits for
/// the publication and completes.
pub open spec fn progress(phase: Seq<char>) -> int {
    if phase == "preparing"@ {
        0
    } else if phase == "ready"@ {
        1
    } else if phase == "prepared"@ {
        2
    } else if phase == "publishing"@ {
        3
    } else if phase == "completed"@ {
        4
    } else {
        -1
    }
}

/// How far a node has to be to be let through.
pub open spec fn threshold(b: Barrier) -> int {
    match b {
        Barrier::Ready => 1,
        Barrier::Prepared => 2,
        Barrier::Publishing => 3,
    }
}

#[verifier::rlimit(50)]
#[verifier::spinoff_prover]
proof fn lemma_phases_differ()
    ensures
        "preparing"@ != "ready"@,
        "preparing"@ != "prepared"@,
        "preparing"@ != "publishing"@,
        "preparing"@ != "completed"@,
        "preparing"@ != "failed"@,
        "ready"@ != "prepared"@,
        "ready"@ != "publishing"@,
        "ready"@ != "completed"@,
        "ready"@ != "failed"@,
        "prepared"@ != "publishing"@,
        "prepared"@ != "completed"@,
        "prepared"@ != "failed"@,
        "publishing"@ != "completed"@,
        "publishing"@ != "failed"@,
        "completed"@ != "failed"@,
{
    reveal_strlit("preparing");
    reveal_strlit("ready");
    reveal_strlit("prepared");
    reveal_strlit("publishing");
    reveal_strlit("completed");
    reveal_strlit("failed");
    assert("preparing"@.len() != "ready"@.len());
    assert("preparing"@.len() != "prepared"@.len());
    assert("preparing"@.len() != "publishing"@.len());
    assert("preparing"@[0] != "completed"@[0]);
    assert("preparing"@.len() != "failed"@.len());
    assert("ready"@.len() != "prepared"@.len());
    assert("ready"@.len() != "publishing"@.len());
    assert("ready"@.len() != "completed"@.len());
    assert("ready"@.len() != "failed"@.len());
    assert("prepared"@.len() != "publishing"@.len());
    assert("prepared"@.len() != "completed"@.len());
    assert("prepared"@.len() != "failed"@.len());
    assert("publishing"@.len() != "completed"@.len());
    assert("publishing"@.len() != "failed"@.len());
    assert("completed"@.len() != "failed"@.len());
}

/// Whether a record is no reason to give up: there is none yet, or it belongs to the same job in
/// the same run, by the node of its rank, of no node that came before, and its node has not failed.
pub open spec fn is_sound(own: MemberView, records: Seq<RecordView>, rank: int) -> bool {
    match records[rank] {
        RecordView::Missing => true,
        RecordView::Unreadable(_) => false,
        RecordView::Found(m) => {
            &&& (m.task_id, m.context.run_id, m.context.node_count) == (
                own.task_id,
                own.context.run_id,
                own.context.node_count,
            )
            &&& (m.context.master_addr, m.context.master_port) == (
                own.context.master_addr,
                own.context.master_port,
            )
            &&& m.context.node_rank == rank
            &&& progress(m.phase) >= 0
            &&& forall|k: int|
                0 <= k < rank ==> !(#[trigger] records[k] matches RecordView::Found(n)
                    && n.context.node_id == m.context.node_id)
        },
    }
}

proof fn lemma_sound_records(own: MemberView, records: Seq<RecordView>, rank: int)
    requires
        0 <= rank < records.len(),
    ensures
        record_check(own, records, rank) is Ok <==> is_sound(own, records, rank),
{
    lemma_phases_differ();
    if let RecordView::Found(m) = records[rank] {
        if identity_taken(records, rank) {
            let k = choose|k: int|
                0 <= k < rank && (#[trigger] records[k]) is Found
                    && records[k]->Found_0.context.node_id
                    == records[rank]->Found_0.context.node_id;
            assert(records[k] matches RecordView::Found(n) && n.context.node_id
                == m.context.node_id);
        } else {
            assert forall|k: int| 0 <= k < rank implies !(
            #[trigger] records[k] matches RecordView::Found(n) && n.context.node_id
                == m.context.node_id) by {}
        }
    }
}

/// The records of a group pass exactly where each of them is sound, and of several that are not,
/// the first is reported: as it cannot be read, or by what became of its node.
pub proof fn law_records_pass_where_all_are_sound(
    own: MemberView,
    records: Seq<RecordView>,
    rank: int,
)
    requires
        0 <= rank < records.len(),
    ensures
        records_check(own, records) is Ok <==> forall|i: int|
            0 <= i < records.len() ==> #[trigger] is_sound(own, records, i),
        !is_sound(own, records, rank) && (forall|i: int|
            0 <= i < rank ==> #[trigger] is_sound(own, records, i)) ==> match records[rank] {
            RecordView::Unreadable(why) => records_check(own, records) == Err::<
                (),
                Seq<Seq<char>>,
            >(seq![why]),
            RecordView::Found(m) => same_run(own, m, rank as nat) && !identity_taken(
                records,
                rank,
            ) && m.phase == "failed"@ && m.error is Some ==> records_check(own, records) == Err::<
                (),
                Seq<Seq<char>>,
            >(seq!["node "@ + decimal(rank as nat) + " failed: "@ + m.error->0]),
            RecordView::Missing => false,
        },
{
    lemma_phases_differ();
    let check = |r: int| record_check(own, records, r);
    let ranks = places(records.len());
    lemma_no_fault(ranks, check);
    assert forall|i: int| 0 <= i < records.len() implies (check(#[trigger] ranks[i]) is Ok
        <==> is_sound(own, records, i)) by {
        lemma_sound_records(own, records, i);
    }
    if forall|i: int| 0 <= i < ranks.len() ==> check(#[trigger] ranks[i]) is Ok {
        assert forall|i: int| 0 <= i < records.len() implies #[trigger] is_sound(
            own,
            records,
            i,
        ) by {
            assert(check(ranks[i]) is Ok);
        }
    }
    if !is_sound(own, records, rank) && (forall|i: int|
        0 <= i < rank ==> #[trigger] is_sound(own, records, i)) {
        assert forall|i: int| 0 <= i < rank implies check(#[trigger] ranks[i]) is Ok by {
            assert(is_sound(own, records, i));
        }
        assert(check(ranks[rank]) is Err);
        lemma_first_fault(ranks, check, rank);
    }
}

/// A node goes on behind a barrier exactly where every node of its group is as far as the
/// barrier asks, or further, or where the reports are visible for good. It goes on waiting where
/// some node is not that far; only the barrier before the start loses patience.
pub proof fn law_barriers_open_when_everyone_is_there(
    b: Barrier,
    committed: bool,
    cancelled: bool,
    own: MemberView,
    records: Seq<RecordView>,
    elapsed_seconds: nat,
    timeout_seconds: nat,
)
    ensures
        ({
            let r = wait_result(
                b,
                committed,
                cancelled,
                own,
                records,
                elapsed_seconds,
                timeout_seconds,
            );
            let sound = forall|i: int|
                0 <= i < records.len() ==> #[trigger] is_sound(own, records, i);
            let there = forall|i: int|
                0 <= i < records.len() ==> (#[trigger] records[i] matches RecordView::Found(m)
                    && progress(m.phase) >= threshold(b));
            &&& r == Ok::<bool, Seq<Seq<char>>>(true) <==> committed || !cancelled && sound && there
            &&& r == Ok::<bool, Seq<Seq<char>>>(false) <==> !committed && !cancelled && sound
                && !there && !(b == Barrier::Ready && elapsed_seconds >= timeout_seconds)
        }),
{
    lemma_phases_differ();
    if records.len() > 0 {
        law_records_pass_where_all_are_sound(own, records, 0);
    } else {
        lemma_no_fault(places(records.len()), |r: int| record_check(own, records, r));
    }
    assert forall|i: int| 0 <= i < records.len() implies ((
    #[trigger] records[i] matches RecordView::Found(m) && has_reached(b, m.phase)) <==> (
    records[i] matches RecordView::Found(m) && progress(m.phase) >= threshold(b))) by {}
}

/// A node that has come to a barrier is exactly as far as the barrier asks.
pub proof fn law_announced_nodes_are_at_their_barrier(m: MemberView, b: Barrier)
    requires
        m.error is None,
    ensures
        progress(barrier_phase(b)) == threshold(b),
        advanced(m, barrier_phase(b)) matches Ok(n) && n.phase == barrier_phase(b) && n.error
            is None && n.sequence == m.sequence && n.context == m.context && n.task_id == m.task_id,
{
    lemma_phases_differ();
}

/// Whether a record shows a sign of life that was not seen before.
pub open spec fn shows_life(last: (Option<u64>, u64), record: RecordView) -> bool {
    record matches RecordView::Found(m) && m.phase != "completed"@ && last.0 != Some(
        m.sequence as u64,
    )
}

pub open spec fn is_complete(record: RecordView) -> bool {
    record matches RecordView::Found(m) && m.phase == "completed"@
}

/// Every node but one that has completed counts as alive from the moment at which its number has
/// changed, whatever its phase; of all others the time runs on. A node is given up exactly where
/// it has not completed and its number has stood still for as long as the group waits.
#[verifier::rlimit(50)]
#[verifier::spinoff_prover]
pub proof fn law_living_nodes_are_not_given_up(
    seen: Seq<(Option<u64>, u64)>,
    records: Seq<RecordView>,
    now: u64,
    timeout: u64,
)
    requires
        records.len() == seen.len(),
        forall|i: int|
            0 <= i < records.len() ==> (#[trigger] records[i] matches RecordView::Found(m)
                ==> m.sequence <= u64::MAX),
    ensures
        heard_all(seen, records, now).len() == seen.len(),
        forall|i: int|
            0 <= i < seen.len() ==> #[trigger] heard_all(seen, records, now)[i] == (
            if shows_life(seen[i], records[i]) {
                (Some(records[i]->Found_0.sequence as u64), now)
            } else {
                seen[i]
            }),
        timeout > 0 && (forall|i: int|
            0 <= i < seen.len() ==> is_complete(#[trigger] records[i]) || shows_life(
                seen[i],
                records[i],
            )) ==> silence_check(heard_all(seen, records, now), records, now, timeout) is Ok,
        silence_check(heard_all(seen, records, now), records, now, timeout) is Ok <==> forall|i:
            int|
            0 <= i < seen.len() ==> is_complete(#[trigger] records[i]) || timeout > 0 && (
            shows_life(seen[i], records[i]) || now < seen[i].1 + timeout * 1000),
        forall|i: int|
            0 <= i < seen.len() && !is_complete(#[trigger] records[i]) && !shows_life(
                seen[i],
                records[i],
            ) && now >= seen[i].1 + timeout * 1000 && (forall|j: int|
                0 <= j < i ==> is_complete(#[trigger] records[j])) ==> silence_check(
                heard_all(seen, records, now),
                records,
                now,
                timeout,
            ) == Err::<(), Seq<Seq<char>>>(
                seq!["node "@ + decimal(i as nat) + " missing or heartbeat expired"@],
            ),
{
    let last = heard_all(seen, records, now);
    let check = |rank: int|
        if expired(last[rank], records[rank], now, timeout) {
            fault("node "@ + decimal(rank as nat) + " missing or heartbeat expired"@)
        } else {
            Ok(())
        };
    let ranks = places(last.len());
    lemma_no_fault(ranks, check);
    assert forall|i: int| 0 <= i < seen.len() implies #[trigger] last[i] == (if shows_life(
        seen[i],
        records[i],
    ) {
        (Some(records[i]->Found_0.sequence as u64), now)
    } else {
        seen[i]
    }) by {}
    assert forall|i: int| 0 <= i < seen.len() implies (check(#[trigger] ranks[i]) is Ok <==> (
    is_complete(records[i]) || timeout > 0 && (shows_life(seen[i], records[i]) || now < seen[i].1
        + timeout * 1000))) by {
        assert(last[i] == (if shows_life(seen[i], records[i]) {
            (Some(records[i]->Found_0.sequence as u64), now)
        } else {
            seen[i]
        }));
        let then = last[i].1;
        if now >= then {
            let d = now - then;
            assert(d / 1000 >= timeout <==> d >= timeout * 1000) by (nonlinear_arith)
                requires
                    d >= 0,
                    timeout >= 0,
            ;
        }
    }
    if forall|i: int| 0 <= i < ranks.len() ==> check(#[trigger] ranks[i]) is Ok {
        assert forall|i: int| 0 <= i < seen.len() implies is_complete(#[trigger] records[i])
            || timeout > 0 && (shows_life(seen[i], records[i]) || now < seen[i].1 + timeout
            * 1000) by {
            assert(check(ranks[i]) is Ok);
        }
    }
    if forall|i: int|
        0 <= i < seen.len() ==> is_complete(#[trigger] records[i]) || timeout > 0 && (shows_life(
            seen[i],
            records[i],
        ) || now < seen[i].1 + timeout * 1000) {
        assert forall|i: int| 0 <= i < ranks.len() implies check(#[trigger] ranks[i]) is Ok by {
            assert(is_complete(records[i]) || timeout > 0 && (shows_life(seen[i], records[i])
                || now < seen[i].1 + timeout * 1000));
        }
    }
    assert forall|i: int|
        0 <= i < seen.len() && !is_complete(#[trigger] records[i]) && !shows_life(
            seen[i],
            records[i],
        ) && now >= seen[i].1 + timeout * 1000 && (forall|j: int|
            0 <= j < i ==> is_complete(#[trigger] records[j])) implies silence_check(
        last,
        records,
        now,
        timeout,
    ) == Err::<(), Seq<Seq<char>>>(
        seq!["node "@ + decimal(i as nat) + " missing or heartbeat expired"@],
    ) by {
        assert forall|j: int| 0 <= j < i implies check(#[trigger] ranks[j]) is Ok by {
            assert(is_complete(records[j]));
        }
        assert(!(check(ranks[i]) is Ok));
        lemma_first_fault(ranks, check, i);
    }
}

/// The reports may be made visible exactly where the group was not cancelled, every record is
/// sound, and every node waits for the publication and has left its report.
pub proof fn law_publication_is_owed_to_a_whole_group(
    cancelled: bool,
    own: MemberView,
    records: Seq<RecordView>,
    reports: Seq<bool>,
)
    requires
        reports.len() == records.len(),
    ensures
        publication_check(cancelled, own, records, reports) is Ok <==> !cancelled && forall|i: int|
            0 <= i < records.len() ==> #[trigger] is_sound(own, records, i) && reports[i] && (
            records[i] matches RecordView::Found(m) && m.phase == "publishing"@),
{
    lemma_phases_differ();
    let check = |rank: int| ready_to_publish(records, reports, rank);
    let ranks = places(records.len());
    lemma_no_fault(ranks, check);
    if records.len() > 0 {
        law_records_pass_where_all_are_sound(own, records, 0);
    } else {
        lemma_no_fault(ranks, |r: int| record_check(own, records, r));
    }
    assert forall|i: int| 0 <= i < records.len() implies (check(#[trigger] ranks[i]) is Ok
        <==> reports[i] && (records[i] matches RecordView::Found(m) && m.phase
        == "publishing"@)) by {}
    if publication_check(cancelled, own, records, reports) is Ok {
        assert forall|i: int| 0 <= i < records.len() implies #[trigger] is_sound(own, records, i)
            && reports[i] && (records[i] matches RecordView::Found(m) && m.phase
            == "publishing"@) by {
            assert(check(ranks[i]) is Ok);
        }
    }
    if !cancelled && forall|i: int|
        0 <= i < records.len() ==> #[trigger] is_sound(own, records, i) && reports[i] && (
        records[i] matches RecordView::Found(m) && m.phase == "publishing"@) {
        assert forall|i: int| 0 <= i < records.len() implies #[trigger] is_sound(
            own,
            records,
            i,
        ) by {}
        assert forall|i: int| 0 <= i < ranks.len() implies check(#[trigger] ranks[i]) is Ok by {
            assert(is_sound(own, records, i));
        }
    }
}

/// Reports are visible exactly where the link leads to the one name of the published directory,
/// and for good exactly where every directory of the publication is synchronized besides.
#[verifier::rlimit(50)]
#[verifier::spinoff_prover]
pub proof fn law_reports_are_visible_behind_one_name(
    link: Option<Seq<char>>,
    synchronized: Seq<bool>,
)
    ensures
        visible(link) <==> link is Some && parts(link->0) == seq![Part::Normal("final"@)],
        visible_for_good(link, synchronized) <==> link is Some && parts(link->0) == seq![
            Part::Normal("final"@),
        ] && synchronized.len() > 0 && !synchronized.contains(false),
        visible(Some("final"@)),
        !visible(Some("pending"@)),
{
    reveal_strlit("final");
    reveal_strlit("pending");
    reveal_strlit(".");
    reveal_strlit("..");
    lemma_last_piece(Seq::empty(), '/', "final"@);
    lemma_last_piece(Seq::empty(), '/', "pending"@);
    assert(!"final"@.contains('/'));
    assert(!"pending"@.contains('/'));
    assert(named_parts(Seq::<Seq<char>>::empty()) =~= Seq::empty());
    assert(seq!["final"@].drop_last() =~= Seq::empty());
    assert(seq!["pending"@].drop_last() =~= Seq::empty());
    assert(parts("final"@) =~= seq![Part::Normal("final"@)]);
    assert(parts("pending"@) =~= seq![Part::Normal("pending"@)]);
    assert(parts("pending"@)[0] != parts("final"@)[0]) by {
        assert("pending"@.len() != "final"@.len());
    }
    if visible_for_good(link, synchronized) {
        assert(!synchronized.contains(false));
    }
    if !synchronized.contains(false) {
        assert forall|i: int| 0 <= i < synchronized.len() implies #[trigger] synchronized[i] by {
            if !synchronized[i] {
                assert(synchronized.contains(false));
            }
        }
    }
}

/// Whether these stages were passed one after the other, each with success.
pub open spec fn passed(start: EndingView, answers: Seq<AnswerView>, stages: Seq<Stage>) -> bool
    decreases stages.len(),
{
    stages.len() == 0 || exists|i: int| #[trigger]
        confirmed(start, answers, i, stages.last()) && passed(
            start,
            answers.take(i),
            stages.drop_last(),
        )
}

proof fn lemma_passed_stays(
    start: EndingView,
    answers: Seq<AnswerView>,
    a: AnswerView,
    stages: Seq<Stage>,
)
    requires
        passed(start, answers, stages),
    ensures
        passed(start, answers.push(a), stages),
{
    if stages.len() > 0 {
        let i = choose|i: int| #[trigger]
            confirmed(start, answers, i, stages.last()) && passed(
                start,
                answers.take(i),
                stages.drop_last(),
            );
        assert(answers.push(a).take(i) =~= answers.take(i));
        assert(confirmed(start, answers.push(a), i, stages.last()));
    }
}

proof fn lemma_one_more(
    start: EndingView,
    answers: Seq<AnswerView>,
    stages: Seq<Stage>,
    stage: Stage,
)
    requires
        passed(start, answers, stages),
        ending_after(start, answers).stage == stage,
    ensures
        passed(start, answers.push(AnswerView::Yes), stages.push(stage)),
{
    let more = answers.push(AnswerView::Yes);
    let n = answers.len() as int;
    assert(more.take(n) =~= answers);
    assert(stages.push(stage).drop_last() =~= stages);
    assert(stages.push(stage).last() == stage);
    assert(confirmed(start, more, n, stages.push(stage).last()));
}

spec fn stages_before(stage: Stage) -> Seq<Stage> {
    match stage {
        Stage::Announce => seq![Stage::Open],
        Stage::Await => seq![Stage::Open, Stage::Announce],
        Stage::Decide => seq![Stage::Open, Stage::Announce, Stage::Await],
        Stage::Recheck | Stage::Examine => seq![
            Stage::Open,
            Stage::Announce,
            Stage::Await,
            Stage::Decide,
        ],
        Stage::Switch => seq![
            Stage::Open,
            Stage::Announce,
            Stage::Await,
            Stage::Decide,
            Stage::Examine,
        ],
        _ => Seq::empty(),
    }
}

proof fn lemma_stages_before(start: EndingView, answers: Seq<AnswerView>)
    requires
        start.stage == Stage::AskCommitted || start.stage == Stage::Fail,
    ensures
        passed(start, answers, stages_before(ending_after(start, answers).stage)),
    decreases answers.len(),
{
    if answers.len() > 0 {
        let front = answers.drop_last();
        let a = answers.last();
        lemma_stages_before(start, front);
        assert(answers =~= front.push(a));
        let v = ending_after(start, front);
        let w = answered(v, a);
        if stages_before(w.stage) == stages_before(v.stage) {
            lemma_passed_stays(start, front, a, stages_before(v.stage));
        } else if a is Yes && stages_before(w.stage).len() > 0 {
            lemma_one_more(start, front, stages_before(v.stage), v.stage);
            assert(stages_before(w.stage) =~= stages_before(v.stage).push(v.stage));
        }
    }
}

/// The reports are made visible only after the directories were opened, this node has announced
/// itself, every node was waited for, the decision was taken alone and the records were found in
/// order: each of it with success, one after the other. Without a failure that is how a group
/// ends, and a step that fails is what it ends with where nothing has become visible.
pub proof fn law_publication_takes_every_step(
    result: Result<(), Seq<Seq<char>>>,
    answers: Seq<AnswerView>,
    v: EndingView,
    e: Seq<Seq<char>>,
    any: AnswerView,
)
    ensures
        ending_after(ending_of(false, result), answers).stage == Stage::Switch ==> passed(
            ending_of(false, result),
            answers,
            seq![Stage::Open, Stage::Announce, Stage::Await, Stage::Decide, Stage::Examine],
        ),
        ending_of(true, result) == (EndingView { stage: Stage::Done, result }),
        v.stage == Stage::Open || v.stage == Stage::Announce || v.stage == Stage::Await || v.stage
            == Stage::Decide || v.stage == Stage::Examine || v.stage == Stage::Switch ==> answered(
            v,
            AnswerView::No,
        ) == v && answered(answered(answered(v, AnswerView::Broken(e)), any), AnswerView::No) == (
        EndingView { stage: Stage::Done, result: Err(e) }),
        ({
            let yes = AnswerView::Yes;
            let no = AnswerView::No;
            let open = answered(ending_of(false, Ok(())), no);
            let decided = answered(answered(answered(answered(open, yes), yes), yes), yes);
            let switched = answered(answered(answered(decided, no), yes), yes);
            let durable = answered(switched, yes);
            &&& open.stage == Stage::Open
            &&& decided.stage == Stage::Recheck
            &&& switched.stage == Stage::AskPublished
            &&& durable.stage == Stage::AwaitDurable
            &&& answered(durable, no) == durable
            &&& answered(answered(durable, yes), any) == (EndingView {
                stage: Stage::Done,
                result: Ok(()),
            })
        }),
{
    lemma_stages_before(ending_of(false, result), answers);
}

/// A node is prepared only where it has announced so and every node was waited for; a failure
/// before or in between is kept.
pub proof fn law_rounds_wait_for_everyone(
    result: Result<(), Seq<Seq<char>>>,
    e: Seq<Seq<char>>,
    any: AnswerView,
)
    ensures
        ({
            let yes = AnswerView::Yes;
            let start = round_of(result);
            let failed = RoundView { stage: RoundStage::Done, result: Err(e) };
            &&& result is Ok ==> {
                &&& start.stage == RoundStage::Announce
                &&& round_answered(start, yes).stage == RoundStage::Await
                &&& round_answered(round_answered(start, yes), AnswerView::No) == round_answered(
                    start,
                    yes,
                )
                &&& round_answered(round_answered(start, yes), yes) == (RoundView {
                    stage: RoundStage::Done,
                    result,
                })
                &&& round_answered(round_answered(start, AnswerView::Broken(e)), any) == failed
                &&& round_answered(
                    round_answered(round_answered(start, yes), AnswerView::Broken(e)),
                    any,
                ) == failed
            }
            &&& result == Err::<(), Seq<Seq<char>>>(e) ==> start.stage == RoundStage::Fail
                && round_answered(start, any) == failed
        }),
{
}

/// A node that joins a group is preparing, has given no sign of life and has not failed; its
/// directory, its record and its reports stand under the name of the run, under its rank.
#[verifier::rlimit(50)]
#[verifier::spinoff_prover]
pub proof fn law_nodes_join_at_the_start(
    directory: Seq<char>,
    context: ContextView,
    task_id: Seq<char>,
    timeout: u64,
    local: Seq<char>,
)
    requires
        timeout > 0,
        directory.len() > 0,
        directory.last() != '/',
        context.run_id.len() > 0,
        context.run_id[0] != '/',
        context.run_id.last() != '/',
    ensures
        ({
            let joined = joined_group(Some(directory), context, task_id, timeout);
            let alone = joined_group(None, context, task_id, timeout);
            let root = directory + "/"@ + context.run_id;
            &&& context.node_count == 1 ==> joined == alone && (alone matches Ok(g)
                && g.shared is None && !g.finished && report_paths(g, local) == (local, local))
            &&& context.node_count != 1 ==> alone is Err && (joined matches Ok(g)
                && g.timeout_seconds == timeout && !g.finished && (g.shared matches Some(s)
                && s.root == root && s.member.context == context && s.member.task_id == task_id
                && progress(s.member.phase) == 0 && s.member.sequence == 0 && s.member.error is None
                && report_paths(g, local) == (
                root + "/reports/pending/"@ + decimal(context.node_rank) + ".json"@,
                root + "/reports/final/"@ + decimal(context.node_rank) + ".json"@,
            ) && rank_file(s.root, context.node_rank, ".json"@) == root + "/"@ + decimal(
                context.node_rank,
            ) + ".json"@ && claim_file(g) == Some(
                root + "/"@ + decimal(context.node_rank) + ".claim"@,
            )))
            &&& joined_group(Some(directory), context, task_id, 0) is Err
        }),
{
    reveal_strlit("/");
    reveal_strlit("reports");
    reveal_strlit("pending");
    reveal_strlit("final");
    reveal_strlit("/reports/pending/");
    reveal_strlit("/reports/final/");
    reveal_strlit(".json");
    reveal_strlit(".claim");
    lemma_phases_differ();
    let root = directory + "/"@ + context.run_id;
    let rank = decimal(context.node_rank);
    lemma_decimal_reads_back(context.node_rank);
    assert(is_digit(rank[0]));
    assert(below(directory, context.run_id) =~= root);
    assert(root.last() == context.run_id.last());
    let reports = below(root, "reports"@);
    assert(reports =~= root + "/"@ + "reports"@);
    assert(reports.last() == 's');
    let pending = below(reports, "pending"@);
    let done = below(reports, "final"@);
    assert(pending =~= reports + "/"@ + "pending"@);
    assert(done =~= reports + "/"@ + "final"@);
    assert(pending.last() == 'g');
    assert(done.last() == 'l');
    assert((rank + ".json"@)[0] == rank[0]);
    assert((rank + ".claim"@)[0] == rank[0]);
    assert(below(pending, rank + ".json"@) =~= root + "/reports/pending/"@ + rank + ".json"@);
    assert(below(done, rank + ".json"@) =~= root + "/reports/final/"@ + rank + ".json"@);
    assert(below(root, rank + ".json"@) =~= root + "/"@ + rank + ".json"@);
    assert(below(root, rank + ".claim"@) =~= root + "/"@ + rank + ".claim"@);
}

/// Where every record is of a node that has completed or shows a new number, nobody is given up.
proof fn lemma_signs_of_life(h: HeartbeatView, records: Seq<Record>, now: u64)
    requires
        records.len() == h.seen.len(),
    ensures
        h.timeout_seconds > 0 && (forall|i: int|
            0 <= i < records.len() ==> (#[trigger] records[i] matches Record::Found(m) && (m.phase@
                == "completed"@ || h.seen[i].0 != Some(m.sequence)))) ==> silence_check(
            heard_all(h.seen, records_view(records), now),
            records_view(records),
            now,
            h.timeout_seconds,
        ) is Ok,
{
    let all = records_view(records);
    assert forall|i: int| 0 <= i < all.len() implies (#[trigger] all[i] matches RecordView::Found(m)
        ==> m.sequence <= u64::MAX) by {
        assert(all[i] == records[i]@);
    }
    law_living_nodes_are_not_given_up(h.seen, all, now, h.timeout_seconds);
    if h.timeout_seconds > 0 && (forall|i: int|
        0 <= i < records.len() ==> (#[trigger] records[i] matches Record::Found(m) && (m.phase@
            == "completed"@ || h.seen[i].0 != Some(m.sequence)))) {
        assert forall|i: int| 0 <= i < h.seen.len() implies is_complete(#[trigger] all[i])
            || shows_life(h.seen[i], all[i]) by {
            assert(all[i] == records[i]@);
            assert(records[i] matches Record::Found(m) && (m.phase@ == "completed"@
                || h.seen[i].0 != Some(m.sequence)));
        }
    }
}

/// A group that is asked says where its own files lie: the record of any rank, the visible report
/// of its own, and its reports on the way. A node that leaves before its end tells so.
#[verifier::rlimit(50)]
#[verifier::spinoff_prover]
pub proof fn law_groups_name_their_files(
    group: &Group,
    rank: u32,
    local: &str,
    record: Option<String>,
    reference: Option<String>,
    paths: ReportPaths,
    left: Option<String>,
    refusal: Option<String>,
    claimed: Result<(), Error>,
)
    requires
        call_ensures(Group::record_path, (group, rank), record),
        call_ensures(Group::report_reference, (group,), reference),
        call_ensures(Group::reports, (group, local), paths),
        call_ensures(Group::leave, (group,), left),
        call_ensures(Group::claim, (group, refusal), claimed),
        group@.shared matches Some(s) ==> s.root.len() > 0 && s.root.last() != '/',
    ensures
        group@.shared is None ==> record is None && reference is None && left is None
            && paths.provisional@ == local@ && paths.candidate@ == local@,
        group@.shared matches Some(s) ==> {
            let own = decimal(s.member.context.node_rank) + ".json"@;
            &&& record matches Some(p) && p@ == s.root + "/"@ + (decimal(rank as nat) + ".json"@)
            &&& reference matches Some(p) && p@ == s.root + "/reports/current/"@ + own
            &&& paths.provisional@ == s.root + "/reports/pending/"@ + own
            &&& paths.candidate@ == s.root + "/reports/final/"@ + own
            &&& left is Some <==> !group@.finished
        },
        claimed is Ok <==> refusal is None,
{
    if let Some(s) = group@.shared {
        reveal_strlit("/");
        reveal_strlit("reports");
        reveal_strlit("pending");
        reveal_strlit("final");
        reveal_strlit("current");
        reveal_strlit("/reports/pending/");
        reveal_strlit("/reports/final/");
        reveal_strlit("/reports/current/");
        reveal_strlit(".json");
        let root = s.root;
        let a = decimal(rank as nat);
        let b = decimal(s.member.context.node_rank);
        lemma_decimal_reads_back(rank as nat);
        lemma_decimal_reads_back(s.member.context.node_rank);
        assert(is_digit(a[0]) && is_digit(b[0]));
        assert((a + ".json"@)[0] == a[0] && (b + ".json"@)[0] == b[0]);
        let reports = below(root, "reports"@);
        assert(reports =~= root + "/"@ + "reports"@);
        assert(reports.last() == 's');
        let pending = below(reports, "pending"@);
        let done = below(reports, "final"@);
        let current = below(reports, "current"@);
        assert(pending =~= reports + "/"@ + "pending"@);
        assert(done =~= reports + "/"@ + "final"@);
        assert(current =~= reports + "/"@ + "current"@);
        assert(pending.last() == 'g');
        assert(done.last() == 'l');
        assert(current.last() == 't');
        assert(below(root, a + ".json"@) =~= root + "/"@ + (a + ".json"@));
        assert(below(pending, b + ".json"@) =~= root + "/reports/pending/"@ + (b + ".json"@));
        assert(below(done, b + ".json"@) =~= root + "/reports/final/"@ + (b + ".json"@));
        assert(below(current, b + ".json"@) =~= root + "/reports/current/"@ + (b + ".json"@));
    }
}

/// A node that waits is let through, kept waiting or refused by what the records of its group say
/// of every node, against its own patience; a node alone goes on unless it is cancelled.
pub proof fn law_waiting_nodes_look_at_the_records(
    group: &Group,
    b: Barrier,
    committed: bool,
    cancelled: bool,
    records: &Vec<Record>,
    elapsed_seconds: u64,
    r: Result<bool, Error>,
)
    requires
        call_ensures(Group::wait, (group, b, committed, cancelled, records, elapsed_seconds), r),
    ensures
        group@.shared is None ==> (r is Ok <==> !cancelled) && (r matches Ok(go) ==> go),
        group@.shared matches Some(s) ==> outcome(r) == wait_result(
            b,
            committed,
            cancelled,
            s.member,
            records_view(records@),
            elapsed_seconds as nat,
            group@.timeout_seconds as nat,
        ),
{
}

/// A failure is recorded with its reason, unless the reports are visible already or another
/// failure came before; nothing else of the record changes.
pub proof fn law_failures_are_recorded(m: MemberView, why: Seq<char>)
    ensures
        after_failure(m, why, true) == m,
        m.error is Some ==> after_failure(m, why, false) == m,
        m.error is None ==> after_failure(m, why, false) == (MemberView {
            task_id: m.task_id,
            context: m.context,
            phase: "failed"@,
            sequence: m.sequence,
            error: Some(why),
        }),
        m.error matches Some(first) ==> advanced(m, why) == Err::<MemberView, Seq<Seq<char>>>(
            seq![first],
        ),
{
}

/// The end of a run starts with how it went on this node, and is told as it came out; the same
/// holds of the round before it. Nodes are compared, and reports looked at, as they are.
pub proof fn law_ends_are_told_as_they_came_out(
    alone: bool,
    result: Result<(), Error>,
    end: Ending,
    done: Ending,
    told: Result<(), Error>,
    round: Round,
    over: Round,
    came: Result<(), Error>,
    own: &Member,
    records: &Vec<Record>,
    agree: Result<(), Error>,
    link: &Option<String>,
    synchronized: &Vec<bool>,
    shown: bool,
    durable: bool,
)
    requires
        call_ensures(Ending::new, (alone, result), end),
        call_ensures(Ending::finish, (done,), told),
        call_ensures(Round::new, (result,), round),
        call_ensures(Round::finish, (over,), came),
        call_ensures(check_records, (own, records), agree),
        call_ensures(published, (link,), shown),
        call_ensures(committed, (link, synchronized), durable),
    ensures
        alone ==> end@.stage == Stage::Done,
        !alone && result is Err ==> end@.stage == Stage::Fail,
        !alone && result is Ok ==> end@.stage == Stage::AskCommitted,
        end@.result is Ok <==> result is Ok,
        told is Ok <==> done@.result is Ok,
        round@.stage == (if result is Ok {
            RoundStage::Announce
        } else {
            RoundStage::Fail
        }),
        came is Ok <==> over@.result is Ok,
        agree is Ok <==> forall|i: int|
            0 <= i < records@.len() ==> #[trigger] is_sound(own@, records_view(records@), i),
        shown <==> *link is Some && parts((*link)->0@) == seq![Part::Normal("final"@)],
        durable <==> shown && synchronized@.len() > 0 && !synchronized@.contains(false),
{
    let all = records_view(records@);
    if all.len() > 0 {
        law_records_pass_where_all_are_sound(own@, all, 0);
    } else {
        lemma_no_fault(places(all.len()), |r: int| record_check(own@, all, r));
    }
    law_reports_are_visible_behind_one_name(text_of(*link), synchronized@);
}

/// Whoever watches a group whose records are sound gives nobody up that has completed or shows a
/// new number, and keeps when each of them was last heard.
pub proof fn law_watched_groups_keep_the_living(
    heartbeats: &mut Heartbeats,
    own: &Member,
    records: &Vec<Record>,
    now: u64,
    r: Result<(), Error>,
)
    requires
        call_ensures(Heartbeats::watch, (heartbeats, own, records, now), r),
        old(heartbeats)@.seen.len() == records@.len(),
        old(heartbeats)@.timeout_seconds > 0,
        forall|i: int|
            0 <= i < records@.len() ==> #[trigger] is_sound(own@, records_view(records@), i),
    ensures
        (forall|i: int|
            0 <= i < records@.len() ==> (#[trigger] records@[i] matches Record::Found(m) && (
            m.phase@ == "completed"@ || old(heartbeats)@.seen[i].0 != Some(m.sequence)))) ==> r is Ok,
        forall|i: int|
            0 <= i < records@.len() && (#[trigger] records@[i]) is Found
                && records@[i]->Found_0.phase@ != "completed"@ && old(heartbeats)@.seen[i].0 != Some(
                records@[i]->Found_0.sequence,
            ) ==> final(heartbeats)@.seen[i] == (Some(records@[i]->Found_0.sequence), now),
        final(heartbeats)@.timeout_seconds == old(heartbeats)@.timeout_seconds,
{
    let all = records_view(records@);
    let h = old(heartbeats)@;
    if all.len() > 0 {
        law_records_pass_where_all_are_sound(own@, all, 0);
    } else {
        lemma_no_fault(places(all.len()), |k: int| record_check(own@, all, k));
    }
    lemma_signs_of_life(h, records@, now);
    assert forall|i: int|
        0 <= i < records@.len() && (#[trigger] records@[i]) is Found && records@[i]->Found_0.phase@
            != "completed"@ && h.seen[i].0 != Some(records@[i]->Found_0.sequence) implies final(heartbeats)@.seen[i] == (Some(records@[i]->Found_0.sequence), now) by {
        assert(all[i] == records@[i]@);
    }
}

/// A node gives signs of life by counting on, announces where it stands, and finishes once.
pub proof fn law_nodes_count_their_signs_of_life(
    group: &mut Group,
    cancelled: bool,
    beaten: Result<(), Error>,
    other: &mut Group,
    made_ready: Result<(), Error>,
    last: &mut Group,
    result: Result<(), Error>,
    end: Ending,
    nodes: u32,
    timeout: u64,
    now: u64,
    heartbeats: Heartbeats,
)
    requires
        call_ensures(Group::beat, (group, cancelled), beaten),
        call_ensures(Group::ready, (other,), made_ready),
        call_ensures(Group::finish, (last, result), end),
        call_ensures(Heartbeats::new, (nodes, timeout, now), heartbeats),
    ensures
        beaten is Ok <==> !cancelled,
        !cancelled ==> (old(group)@.shared matches Some(s) ==> (final(group)@.shared matches Some(n)
            && n.member.sequence == s.member.sequence + 1 && n.member.phase == s.member.phase
            && n.root == s.root)),
        old(other)@.shared is Some && old(other)@.shared->0.member.error is None ==> made_ready is Ok
            && (final(other)@.shared matches Some(n) && progress(n.member.phase) == 1),
        final(last)@.finished,
        final(last)@.shared == old(last)@.shared,
        heartbeats@.seen.len() == nodes && heartbeats@.timeout_seconds == timeout && forall|i: int|
            0 <= i < nodes ==> #[trigger] heartbeats@.seen[i] == (None::<u64>, now),
{
    lemma_phases_differ();
}

/// What came of a stage of the end is taken as it is, and the records are examined as they stand.
pub proof fn law_ends_go_on_as_answered(
    end: &mut Ending,
    a: Answer,
    other: &mut Ending,
    cancelled: bool,
    own: &Member,
    records: &Vec<Record>,
    reports: &Vec<bool>,
    round: &mut Round,
    b: Answer,
    shown: &Ending,
    failure: Option<String>,
)
    requires
        call_ensures(Ending::answer, (end, a), ()),
        call_ensures(Ending::examine, (other, cancelled, own, records, reports), ()),
        call_ensures(Round::answer, (round, b), ()),
        call_ensures(Ending::failure, (shown,), failure),
        old(other)@.stage == Stage::Examine,
        reports@.len() == records@.len(),
    ensures
        final(end)@ == answered(old(end)@, a@),
        final(other)@.stage == Stage::Switch <==> !cancelled && forall|i: int|
            0 <= i < records@.len() ==> #[trigger] is_sound(own@, records_view(records@), i)
                && reports@[i] && (records_view(records@)[i] matches RecordView::Found(m) && m.phase
                == "publishing"@),
        final(other)@.stage != Stage::Switch ==> final(other)@.stage == Stage::Fail
            && final(other)@.result is Err,
        final(round)@ == round_answered(old(round)@, b@),
        failure is Some <==> shown@.result is Err,
{
    law_publication_is_owed_to_a_whole_group(
        cancelled,
        own@,
        records_view(records@),
        reports@,
    );
}

} // verus!
