use nix_compute::canonical::canonical_text;
use nix_compute::error::Error;
use nix_compute::group::{
    check_records, committed, published, Answer, Barrier, Ending, Group, Heartbeats, Member,
    Record, RoundStage, Stage,
};
use nix_compute::node::NodeContext;

use std::collections::BTreeSet;

fn context(rank: u32) -> NodeContext {
    NodeContext {
        run_id: "test".to_string(),
        node_id: format!("node-{rank}"),
        node_rank: rank,
        node_count: 2,
        master_addr: "127.0.0.1".to_string(),
        master_port: 29500,
    }
}

fn member(rank: u32, phase: &str, sequence: u64) -> Member {
    let mut m = Member::new("task", &context(rank));
    m.phase = phase.to_string();
    m.sequence = sequence;
    m
}

fn records(left: &str, right: &str) -> Vec<Record> {
    vec![Record::Found(member(0, left, 1)), Record::Found(member(1, right, 1))]
}

fn join(rank: u32) -> Group {
    Group::join(Some("/shared".to_string()), &context(rank), "task", 3).unwrap()
}

#[test]
fn joining_needs_a_time_and_a_place() {
    assert_eq!(
        Group::join(None, &context(0), "task", 0).err().unwrap().message(),
        "coordination timeout must be positive"
    );
    assert_eq!(
        Group::join(None, &context(0), "task", 3).err().unwrap().message(),
        "multi-node reference provider requires a shared --coordination-dir"
    );
    let mut group = join(1);
    assert_eq!(group.root().unwrap(), "/shared/test");
    group.settle("/mnt/shared/test");
    assert_eq!(group.claim_path().unwrap(), "/mnt/shared/test/1.claim");
    assert_eq!(group.record_path(0).unwrap(), "/mnt/shared/test/0.json");
    assert_eq!(group.timeout(), 3);
    assert_eq!(group.member().unwrap().phase, "preparing");
}

#[test]
fn a_node_alone_waits_for_nobody() {
    let mut alone = context(0);
    alone.node_count = 1;
    let mut group = Group::join(None, &alone, "task", 3).unwrap();
    assert!(group.root().is_none() && group.member().is_none());
    group.ready().unwrap();
    assert!(group.wait(Barrier::Ready, false, false, &vec![], 0).unwrap());
    assert_eq!(
        group.wait(Barrier::Ready, false, true, &vec![], 0).unwrap_err().message(),
        "group cancelled or peer failed"
    );
    assert!(!group.fail("x", false));
    let paths = group.reports("/runs/attestation.json");
    assert_eq!(paths.provisional, "/runs/attestation.json");
    assert_eq!(paths.candidate, "/runs/attestation.json");
    let end = group.finish(Err(Error::new("late")));
    assert_eq!(end.stage(), Stage::Done);
    assert_eq!(end.finish().unwrap_err().message(), "late");
}

#[test]
fn barrier_and_completion_wait_for_all_nodes() {
    let mut left = join(0);
    left.ready().unwrap();
    assert_eq!(left.member().unwrap().phase, "ready");
    let wait = |b: Barrier, r: Vec<Record>| left.wait(b, false, false, &r, 0).unwrap();
    assert!(!wait(Barrier::Ready, records("ready", "preparing")));
    assert!(!wait(Barrier::Ready, vec![Record::Found(member(0, "ready", 1)), Record::Missing]));
    assert!(wait(Barrier::Ready, records("ready", "ready")));
    assert!(wait(Barrier::Ready, records("ready", "prepared")));
    assert!(!wait(Barrier::Prepared, records("prepared", "ready")));
    assert!(wait(Barrier::Prepared, records("prepared", "publishing")));
    assert!(!wait(Barrier::Publishing, records("publishing", "prepared")));
    assert!(wait(Barrier::Publishing, records("publishing", "completed")));
    let reports = left.reports("/runs/0/attestation.json");
    assert_eq!(reports.provisional, "/shared/test/reports/pending/0.json");
    assert_eq!(reports.candidate, "/shared/test/reports/final/0.json");
    assert_eq!(left.report_reference().unwrap(), "/shared/test/reports/current/0.json");
    let mut end = left.finish(Ok(()));
    let own = member(0, "publishing", 1);
    for expected in [Stage::AskCommitted, Stage::Open, Stage::Announce, Stage::Await, Stage::Decide] {
        assert_eq!(end.stage(), expected);
        end.answer(if expected == Stage::AskCommitted { Answer::No } else { Answer::Yes });
    }
    assert_eq!(end.stage(), Stage::Recheck);
    end.answer(Answer::No);
    end.examine(false, &own, &records("publishing", "publishing"), &vec![true, true]);
    assert_eq!(end.stage(), Stage::Switch);
    end.answer(Answer::Yes);
    assert_eq!(end.stage(), Stage::AskPublished);
    end.answer(Answer::Yes);
    end.answer(Answer::Yes);
    assert_eq!(end.stage(), Stage::Complete);
    end.answer(Answer::Yes);
    assert!(end.finish().is_ok());
}

#[test]
fn published_decision_waits_for_sync_recovery_even_after_error() {
    let mut end = join(0).finish(Err(Error::new("late storage error")));
    assert_eq!(end.stage(), Stage::Fail);
    assert_eq!(end.failure().unwrap(), "late storage error");
    end.answer(Answer::Yes);
    assert_eq!(end.stage(), Stage::AskPublished);
    end.answer(Answer::Yes);
    for _ in 0..3 {
        assert_eq!(end.stage(), Stage::AwaitDurable);
        end.answer(Answer::No);
    }
    end.answer(Answer::Yes);
    end.answer(Answer::Broken(Error::new("record not written")));
    assert_eq!(end.stage(), Stage::Done);
    assert!(end.finish().is_ok());
}

#[test]
fn failed_nodes_end_in_a_failure_where_nothing_is_visible() {
    let mut group = join(0);
    let mut end = group.finish(Err(Error::new("disk full")));
    assert_eq!(end.stage(), Stage::Fail);
    assert!(group.fail(&end.failure().unwrap(), false));
    end.answer(Answer::Yes);
    assert_eq!(end.stage(), Stage::AskPublished);
    end.answer(Answer::No);
    assert_eq!(end.stage(), Stage::Done);
    assert_eq!(end.finish().unwrap_err().message(), "disk full");
    assert!(!join(1).fail("too late", true));
}

#[test]
fn failures_before_the_publication_are_kept() {
    let mut end = join(0).finish(Ok(()));
    end.answer(Answer::No);
    end.answer(Answer::Broken(Error::new("cannot open")));
    assert_eq!(end.stage(), Stage::Fail);
    end.answer(Answer::Yes);
    end.answer(Answer::No);
    assert_eq!(end.stage(), Stage::Done);
    assert_eq!(end.finish().unwrap_err().message(), "cannot open");
}

#[test]
fn every_reason_against_a_publication() {
    let own = member(0, "publishing", 1);
    let reason = |cancelled: bool, r: Vec<Record>, reports: Vec<bool>| {
        let mut end = Ending::new(false, Ok(()));
        end.answer(Answer::No);
        for _ in 0..4 {
            end.answer(Answer::Yes);
        }
        end.answer(Answer::No);
        assert_eq!(end.stage(), Stage::Examine);
        end.examine(cancelled, &own, &r, &reports);
        match end.stage() {
            Stage::Switch => "switch".to_string(),
            _ => end.failure().unwrap(),
        }
    };
    let all = vec![true, true];
    assert_eq!(reason(false, records("publishing", "publishing"), all.clone()), "switch");
    assert_eq!(
        reason(true, records("publishing", "publishing"), all.clone()),
        "group cancelled before report publication"
    );
    assert_eq!(
        reason(false, records("publishing", "prepared"), all.clone()),
        "member is not ready to publish"
    );
    assert_eq!(
        reason(false, vec![Record::Found(member(0, "publishing", 1)), Record::Missing], all.clone()),
        "missing member before report publication"
    );
    assert_eq!(
        reason(false, records("publishing", "publishing"), vec![true, false]),
        "missing final report"
    );
    assert_eq!(
        reason(false, records("publishing", "failed"), all),
        "node 1 failed: unknown failure"
    );
}

#[test]
fn peer_failure_and_duplicate_rank_are_rejected() {
    let mut claims = BTreeSet::new();
    let mut claimed = |group: &Group| {
        let made = claims.insert(group.claim_path().unwrap());
        group.claim(if made { None } else { Some("File exists (os error 17)".to_string()) })
    };
    let mut left = join(0);
    assert!(claimed(&left).is_ok());
    let refused = claimed(&join(0)).unwrap_err();
    assert_eq!(
        refused.chain,
        [
            "node rank already claimed; use a new run_id for a new attempt",
            "File exists (os error 17)"
        ]
    );
    assert!(claimed(&join(1)).is_ok());
    assert_eq!(left.leave().unwrap(), "node stopped before completing the task");
    assert!(left.fail(&left.leave().unwrap(), false));
    let right = join(1);
    let mut failed = member(0, "failed", 1);
    failed.error = left.member().unwrap().error.clone();
    let seen = vec![Record::Found(failed), Record::Found(member(1, "ready", 1))];
    assert_eq!(
        right.wait(Barrier::Ready, false, false, &seen, 0).unwrap_err().message(),
        "node 0 failed: node stopped before completing the task"
    );
}

#[test]
fn one_rank_of_a_run_has_one_claim() {
    let claim = |c: &NodeContext, task: &str, timeout: u64| {
        Group::join(Some("/shared".to_string()), c, task, timeout).unwrap().claim_path().unwrap()
    };
    assert_eq!(claim(&context(1), "task", 3), "/shared/test/1.claim");
    let mut again = context(1);
    again.node_id = "somebody".to_string();
    assert_eq!(claim(&again, "other", 9), claim(&context(1), "task", 3));
    assert_ne!(claim(&context(0), "task", 3), claim(&context(1), "task", 3));
    again.run_id = "next".to_string();
    assert_eq!(claim(&again, "task", 3), "/shared/next/1.claim");
}

#[test]
fn different_task_or_missing_peer_never_starts() {
    let left = join(0);
    let mut other = member(1, "ready", 1);
    other.task_id = "different-task".to_string();
    let seen = vec![Record::Found(member(0, "ready", 1)), Record::Found(other)];
    assert_eq!(
        left.wait(Barrier::Ready, false, false, &seen, 0).unwrap_err().message(),
        "node 1 has a different task or rendezvous context"
    );
    let seen = vec![Record::Found(member(0, "ready", 1)), Record::Missing];
    assert!(!left.wait(Barrier::Ready, false, false, &seen, 2).unwrap());
    assert_eq!(
        left.wait(Barrier::Ready, false, false, &seen, 3).unwrap_err().message(),
        "timed out waiting for all nodes to become ready"
    );
    assert!(!left.wait(Barrier::Prepared, false, false, &seen, 3).unwrap());
    assert!(left.wait(Barrier::Prepared, true, true, &seen, 3).unwrap());
}

#[test]
fn every_reason_against_a_record() {
    let own = member(0, "ready", 1);
    let reason = |change: &dyn Fn(&mut Member)| {
        let mut peer = member(1, "ready", 1);
        change(&mut peer);
        match check_records(&own, &vec![Record::Found(member(0, "ready", 1)), Record::Found(peer)]) {
            Ok(()) => "agrees".to_string(),
            Err(e) => e.message(),
        }
    };
    let apart = "node 1 has a different task or rendezvous context";
    assert_eq!(reason(&|_| {}), "agrees");
    assert_eq!(reason(&|m| m.context.run_id = "other".to_string()), apart);
    assert_eq!(reason(&|m| m.context.node_count = 3), apart);
    assert_eq!(reason(&|m| m.context.node_rank = 0), apart);
    assert_eq!(reason(&|m| m.context.master_addr = "10.0.0.1".to_string()), apart);
    assert_eq!(reason(&|m| m.context.master_port = 1), apart);
    assert_eq!(
        reason(&|m| m.context.node_id = "node-0".to_string()),
        "duplicate node identity"
    );
    assert_eq!(reason(&|m| m.phase = "dancing".to_string()), "invalid peer phase");
    let unreadable = vec![Record::Unreadable("torn".to_string()), Record::Missing];
    assert_eq!(check_records(&own, &unreadable).unwrap_err().message(), "torn");
}

#[test]
fn expired_heartbeat_cancels_a_running_group() {
    let own = member(0, "ready", 1);
    let mut watch = Heartbeats::new(2, 1, 0);
    let seen = |left: u64, right: u64| {
        vec![Record::Found(member(0, "ready", left)), Record::Found(member(1, "ready", right))]
    };
    watch.watch(&own, &seen(1, 1), 0).unwrap();
    watch.watch(&own, &seen(2, 1), 999).unwrap();
    assert_eq!(
        watch.watch(&own, &seen(3, 1), 1000).unwrap_err().message(),
        "node 1 missing or heartbeat expired"
    );
    let mut watch = Heartbeats::new(2, 1, 0);
    let gone = vec![Record::Found(member(0, "ready", 1)), Record::Missing];
    assert!(watch.watch(&own, &gone, 999).is_ok());
    assert!(watch.watch(&own, &gone, 1000).is_err());
    let mut watch = Heartbeats::new(2, 1, 0);
    let done = vec![Record::Found(member(0, "ready", 1)), Record::Found(member(1, "completed", 1))];
    assert!(watch.watch(&own, &done, 500).is_ok());
    let later = vec![Record::Found(member(0, "ready", 2)), Record::Found(member(1, "completed", 1))];
    assert!(watch.watch(&own, &later, 5000).is_ok());
}

#[test]
fn a_failed_node_stays_failed() {
    let mut group = join(0);
    group.beat(false).unwrap();
    assert_eq!(group.member().unwrap().sequence, 1);
    assert_eq!(group.beat(true).unwrap_err().message(), "node cancelled");
    assert!(!group.fail("too late", true));
    assert!(group.member().unwrap().error.is_none());
    assert!(group.fail("first", false));
    assert!(group.fail("second", false));
    assert_eq!(group.member().unwrap().error.as_deref(), Some("first"));
    assert_eq!(group.member().unwrap().phase, "failed");
    assert_eq!(group.ready().unwrap_err().message(), "first");
    assert_eq!(group.announce(Barrier::Publishing).unwrap_err().message(), "first");
    assert_eq!(group.complete().unwrap_err().message(), "first");
    assert!(group.leave().is_some());
    let _end = group.finish(Ok(()));
    assert!(group.leave().is_none());
}

#[test]
fn rounds_end_in_a_failure_or_behind_the_barrier() {
    let group = join(0);
    let mut round = group.prepare(Ok(()));
    assert_eq!(round.stage(), RoundStage::Announce);
    round.answer(Answer::Yes);
    round.answer(Answer::No);
    assert_eq!(round.stage(), RoundStage::Await);
    round.answer(Answer::Yes);
    assert_eq!(round.stage(), RoundStage::Done);
    assert!(round.failure().is_none());
    assert!(round.finish().is_ok());
    let mut round = group.prepare(Ok(()));
    round.answer(Answer::Broken(Error::new("inner").context("outer")));
    assert_eq!(round.stage(), RoundStage::Fail);
    assert_eq!(round.failure().unwrap(), "outer: inner");
    round.answer(Answer::Yes);
    assert_eq!(round.finish().unwrap_err().message(), "outer");
    let round = group.prepare(Err(Error::new("early")));
    assert_eq!(round.stage(), RoundStage::Fail);
}

#[test]
fn nodes_are_told_their_place() {
    let c = context(1);
    let env = c.environment();
    assert_eq!(env.get("NIX_COMPUTE_NODE_RANK").unwrap(), "1");
    assert_eq!(env.get("NIX_COMPUTE_NODE_COUNT").unwrap(), "2");
    assert_eq!(env.get("NIX_COMPUTE_MASTER_ADDR").unwrap(), "127.0.0.1");
    assert_eq!(env.get("NIX_COMPUTE_MASTER_PORT").unwrap(), "29500");
    assert_eq!(
        canonical_text(&c.to_json()),
        "{\"master_addr\":\"127.0.0.1\",\"master_port\":29500,\"node_count\":2,\"node_id\":\"node-1\",\"node_rank\":1,\"run_id\":\"test\"}"
    );
    assert!(c.validate(2).is_ok());
    assert!(c.validate(3).is_err());
    assert!(context(2).validate(2).is_err());
    let alone = NodeContext::alone("r".to_string(), 4000);
    assert_eq!((alone.node_rank, alone.node_count, alone.master_port), (0, 1, 4000));
    assert_eq!(alone.node_id, "local");
}

#[test]
fn reports_are_visible_for_good_once_they_are_synchronized() {
    let link = |s: &str| Some(s.to_string());
    assert!(published(&link("final")));
    assert!(!published(&link("pending")) && !published(&None));
    assert!(committed(&link("final"), &vec![true, true, true]));
    assert!(!committed(&link("final"), &vec![true, false, true]));
    assert!(!committed(&link("final"), &vec![]));
    assert!(!committed(&link("pending"), &vec![true]));
}
