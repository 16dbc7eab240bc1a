//! The place of a node in a group.

use vstd::prelude::*;
use crate::error::{outcome, Error};
use crate::json::{member_of, whole, Json, JsonView, Members};
use crate::map::{lemma_lookup_push, lemma_put_lookup, lookup, put, StringMap};
use crate::model::fault;
use crate::text::{decimal, number};

verus! {

/// One node of a run: its place, and where the nodes meet.
#[derive(Debug)]
pub struct NodeContext {
    pub run_id: String,
    pub node_id: String,
    pub node_rank: u32,
    pub node_count: u32,
    pub master_addr: String,
    pub master_port: u16,
}

pub struct ContextView {
    pub run_id: Seq<char>,
    pub node_id: Seq<char>,
    pub node_rank: nat,
    pub node_count: nat,
    pub master_addr: Seq<char>,
    pub master_port: nat,
}

impl View for NodeContext {
    type V = ContextView;

    open spec fn view(&self) -> ContextView {
        ContextView {
            run_id: self.run_id@,
            node_id: self.node_id@,
            node_rank: self.node_rank as nat,
            node_count: self.node_count as nat,
            master_addr: self.master_addr@,
            master_port: self.master_port as nat,
        }
    }
}

/// What a node is told of its place.
pub open spec fn context_environment(c: ContextView) -> Seq<(Seq<char>, Seq<char>)> {
    let a = put(Seq::empty(), "NIX_COMPUTE_NODE_RANK"@, decimal(c.node_rank));
    let b = put(a, "NIX_COMPUTE_NODE_COUNT"@, decimal(c.node_count));
    let d = put(b, "NIX_COMPUTE_MASTER_ADDR"@, c.master_addr);
    put(d, "NIX_COMPUTE_MASTER_PORT"@, decimal(c.master_port))
}

/// A context belongs to a target where it counts the nodes that the target asks for, and
/// its rank is one of theirs.
pub open spec fn context_check(c: ContextView, nodes: nat) -> Result<(), Seq<Seq<char>>> {
    if c.node_count != nodes {
        fault("node count differs from the target"@)
    } else if c.node_rank >= c.node_count {
        fault("node rank is outside the group"@)
    } else {
        Ok(())
    }
}

pub open spec fn context_json(c: ContextView) -> JsonView {
    JsonView::Object(
        seq![
            ("run_id"@, JsonView::Text(c.run_id)),
            ("node_id"@, JsonView::Text(c.node_id)),
            ("node_rank"@, whole(c.node_rank)),
            ("node_count"@, whole(c.node_count)),
            ("master_addr"@, JsonView::Text(c.master_addr)),
            ("master_port"@, whole(c.master_port)),
        ],
    )
}

impl NodeContext {
    /// The context of a run on one node.
    pub fn alone(run_id: String, port: u16) -> (r: NodeContext)
        ensures
            r@ == (ContextView {
                run_id: run_id@,
                node_id: "local"@,
                node_rank: 0,
                node_count: 1,
                master_addr: "127.0.0.1"@,
                master_port: port as nat,
            }),
    {
        NodeContext {
            run_id,
            node_id: "local".to_owned(),
            node_rank: 0,
            node_count: 1,
            master_addr: "127.0.0.1".to_owned(),
            master_port: port,
        }
    }

    /// The same context once more.
    pub fn copy(&self) -> (r: NodeContext)
        ensures
            r == *self,
    {
        NodeContext {
            run_id: self.run_id.clone(),
            node_id: self.node_id.clone(),
            node_rank: self.node_rank,
            node_count: self.node_count,
            master_addr: self.master_addr.clone(),
            master_port: self.master_port,
        }
    }

    /// Whether the context belongs to a target that asks for a number of nodes.
    pub fn validate(&self, nodes: u32) -> (r: Result<(), Error>)
        ensures
            outcome(r) == context_check(self@, nodes as nat),
    {
        if self.node_count != nodes {
            return Err(Error::new("node count differs from the target"));
        }
        if self.node_rank >= self.node_count {
            return Err(Error::new("node rank is outside the group"));
        }
        Ok(())
    }

    /// What a node is told of its place.
    pub fn environment(&self) -> (r: StringMap<String>)
        ensures
            r@ == context_environment(self@),
    {
        let mut env: StringMap<String> = StringMap::new();
        env.set("NIX_COMPUTE_NODE_RANK", number(self.node_rank as u64).as_str());
        env.set("NIX_COMPUTE_NODE_COUNT", number(self.node_count as u64).as_str());
        env.set("NIX_COMPUTE_MASTER_ADDR", self.master_addr.as_str());
        env.set("NIX_COMPUTE_MASTER_PORT", number(self.master_port as u64).as_str());
        env
    }

    pub fn to_json(&self) -> (r: Json)
        ensures
            r@ == context_json(self@),
    {
        let r = Members::new().with("run_id", Json::text(self.run_id.as_str())).with(
            "node_id",
            Json::text(self.node_id.as_str()),
        ).with("node_rank", Json::unsigned(self.node_rank as u64)).with(
            "node_count",
            Json::unsigned(self.node_count as u64),
        ).with("master_addr", Json::text(self.master_addr.as_str())).with(
            "master_port",
            Json::unsigned(self.master_port as u64),
        ).object();
        assert(r@->Object_0 =~= context_json(self@)->Object_0);
        r
    }
}

/// The place of a node is told, each thing under its own name.
#[verifier::rlimit(50)]
#[verifier::spinoff_prover]
pub proof fn law_places_are_told(c: ContextView)
    ensures
        member_of(context_json(c), "run_id"@) == JsonView::Text(c.run_id),
        member_of(context_json(c), "node_id"@) == JsonView::Text(c.node_id),
        member_of(context_json(c), "node_rank"@) == JsonView::Number(decimal(c.node_rank)),
        member_of(context_json(c), "node_count"@) == JsonView::Number(decimal(c.node_count)),
        member_of(context_json(c), "master_addr"@) == JsonView::Text(c.master_addr),
        member_of(context_json(c), "master_port"@) == JsonView::Number(decimal(c.master_port)),
        context_json(c)->Object_0.len() == 6,
{
    broadcast use lemma_lookup_push;

    reveal_strlit("run_id");
    reveal_strlit("node_id");
    reveal_strlit("node_rank");
    reveal_strlit("node_count");
    reveal_strlit("master_addr");
    reveal_strlit("master_port");
    assert("run_id"@.len() == 6);
    assert("node_id"@.len() == 7);
    assert("node_rank"@.len() == 9);
    assert("node_count"@.len() == 10);
    assert("master_addr"@.len() == 11 && "master_addr"@[7] == 'a');
    assert("master_port"@.len() == 11 && "master_port"@[7] == 'p');
    let all = Seq::<(Seq<char>, JsonView)>::empty()
        .push(("run_id"@, JsonView::Text(c.run_id)))
        .push(("node_id"@, JsonView::Text(c.node_id)))
        .push(("node_rank"@, whole(c.node_rank)))
        .push(("node_count"@, whole(c.node_count)))
        .push(("master_addr"@, JsonView::Text(c.master_addr)))
        .push(("master_port"@, whole(c.master_port)));
    assert(context_json(c)->Object_0 =~= all);
    assert(context_json(c) == JsonView::Object(all));
}

/// A workload finds its rank, the number of nodes and the place where they meet, each under its
/// own name and nothing else.
pub proof fn law_nodes_are_told_their_place(c: ContextView, name: Seq<char>)
    ensures
        ({
            let env = context_environment(c);
            &&& lookup(env, "NIX_COMPUTE_NODE_RANK"@) == Some(decimal(c.node_rank))
            &&& lookup(env, "NIX_COMPUTE_NODE_COUNT"@) == Some(decimal(c.node_count))
            &&& lookup(env, "NIX_COMPUTE_MASTER_ADDR"@) == Some(c.master_addr)
            &&& lookup(env, "NIX_COMPUTE_MASTER_PORT"@) == Some(decimal(c.master_port))
            &&& lookup(env, name) is Some ==> name == "NIX_COMPUTE_NODE_RANK"@ || name
                == "NIX_COMPUTE_NODE_COUNT"@ || name == "NIX_COMPUTE_MASTER_ADDR"@ || name
                == "NIX_COMPUTE_MASTER_PORT"@
        }),
{
    reveal_strlit("NIX_COMPUTE_NODE_RANK");
    reveal_strlit("NIX_COMPUTE_NODE_COUNT");
    reveal_strlit("NIX_COMPUTE_MASTER_ADDR");
    reveal_strlit("NIX_COMPUTE_MASTER_PORT");
    assert("NIX_COMPUTE_NODE_RANK"@.len() == 21);
    assert("NIX_COMPUTE_NODE_COUNT"@.len() == 22);
    assert("NIX_COMPUTE_MASTER_ADDR"@.len() == 23 && "NIX_COMPUTE_MASTER_ADDR"@[19] == 'A');
    assert("NIX_COMPUTE_MASTER_PORT"@.len() == 23 && "NIX_COMPUTE_MASTER_PORT"@[19] == 'P');
    let e = Seq::<(Seq<char>, Seq<char>)>::empty();
    let a = put(e, "NIX_COMPUTE_NODE_RANK"@, decimal(c.node_rank));
    let b = put(a, "NIX_COMPUTE_NODE_COUNT"@, decimal(c.node_count));
    let d = put(b, "NIX_COMPUTE_MASTER_ADDR"@, c.master_addr);
    assert forall|k: Seq<char>| #[trigger] lookup(context_environment(c), k) == if k
        == "NIX_COMPUTE_MASTER_PORT"@ {
        Some(decimal(c.master_port))
    } else if k == "NIX_COMPUTE_MASTER_ADDR"@ {
        Some(c.master_addr)
    } else if k == "NIX_COMPUTE_NODE_COUNT"@ {
        Some(decimal(c.node_count))
    } else if k == "NIX_COMPUTE_NODE_RANK"@ {
        Some(decimal(c.node_rank))
    } else {
        None
    } by {
        lemma_put_lookup(e, "NIX_COMPUTE_NODE_RANK"@, decimal(c.node_rank), k);
        lemma_put_lookup(a, "NIX_COMPUTE_NODE_COUNT"@, decimal(c.node_count), k);
        lemma_put_lookup(b, "NIX_COMPUTE_MASTER_ADDR"@, c.master_addr, k);
        lemma_put_lookup(d, "NIX_COMPUTE_MASTER_PORT"@, decimal(c.master_port), k);
    }
}

/// A place is accepted exactly where the group is as large as the target asks for, and the rank is
/// one of its ranks. A node alone has the only one.
pub proof fn law_accepted_places_are_in_the_group(
    c: ContextView,
    nodes: nat,
    run_id: String,
    port: u16,
    r: NodeContext,
)
    requires
        call_ensures(NodeContext::alone, (run_id, port), r),
    ensures
        context_check(c, nodes) is Ok <==> c.node_rank < nodes && c.node_count == nodes,
        context_check(r@, 1) is Ok,
        r.run_id@ == run_id@ && r.node_rank == 0 && r.node_count == 1 && r.master_port == port
            && r.master_addr@ == "127.0.0.1"@,
{
}

/// A node tells its workload and its report the place that it has.
pub proof fn law_nodes_tell_the_place_they_have(
    node: &NodeContext,
    nodes: u32,
    valid: Result<(), Error>,
    env: StringMap<String>,
    told: Json,
)
    requires
        call_ensures(NodeContext::validate, (node, nodes), valid),
        call_ensures(NodeContext::environment, (node,), env),
        call_ensures(NodeContext::to_json, (node,), told),
    ensures
        valid is Ok <==> node.node_count == nodes && node.node_rank < nodes,
        lookup(env@, "NIX_COMPUTE_NODE_RANK"@) == Some(decimal(node.node_rank as nat)),
        lookup(env@, "NIX_COMPUTE_NODE_COUNT"@) == Some(decimal(node.node_count as nat)),
        lookup(env@, "NIX_COMPUTE_MASTER_ADDR"@) == Some(node.master_addr@),
        lookup(env@, "NIX_COMPUTE_MASTER_PORT"@) == Some(decimal(node.master_port as nat)),
        member_of(told@, "run_id"@) == JsonView::Text(node.run_id@),
        member_of(told@, "node_id"@) == JsonView::Text(node.node_id@),
        member_of(told@, "node_rank"@) == JsonView::Number(decimal(node.node_rank as nat)),
{
    law_nodes_are_told_their_place(node@, Seq::empty());
    law_places_are_told(node@);
}

} // verus!
