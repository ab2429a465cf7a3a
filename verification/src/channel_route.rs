//! The route enumeration engine and the endpoint frequency aggregator.
//!
//! A bounded search over the channel graph, guided by the advertised cost
//! envelope: starting from the introduction node, a route is extended along
//! every incident channel whose accumulated envelope stays within the target,
//! never revisiting a node. Routes with no valid extension are terminal and
//! form the result set. A baseline ranking then counts how often each node
//! terminates a route.

use vstd::prelude::*;

use crate::constraints::{
    accumulate_envelopes, accumulation_fits, blinded_path_envelope, envelope_exceeds,
    get_constraints_from_blinded_path, get_constraints_from_node_policy, identity_envelope,
    policy_envelope, policy_parses, Constraints, EnumerationError, Envelope,
};
use crate::graph::{BlindedPath, ChannelGraph, ChannelGraphView, EdgeView, NodePolicy, NodePolicyView};

verus! {

/// A route under construction or completed: the node sequence from the
/// introduction node to the current frontier, the parallel channel sequence
/// (one channel fewer than nodes), and the accumulated cost envelope.
/// Extending a route always builds a new value, so branches of the search
/// never alias.
#[derive(Debug)]
pub struct Route {
    pub nodes: Vec<String>,
    pub channel_ids: Vec<String>,
    pub constraints: Constraints,
}

/// Mathematical model of a [`Route`].
pub ghost struct RouteView {
    pub nodes: Seq<Seq<char>>,
    pub channel_ids: Seq<Seq<char>>,
    pub constraints: Envelope,
}

impl View for Route {
    type V = RouteView;

    open spec fn view(&self) -> RouteView {
        RouteView {
            nodes: self.nodes@.map_values(|s: String| s@),
            channel_ids: self.channel_ids@.map_values(|s: String| s@),
            constraints: self.constraints@,
        }
    }
}

/// The sequence of names a vector of strings denotes.
pub open spec fn names_of(v: Seq<String>) -> Seq<Seq<char>> {
    v.map_values(|s: String| s@)
}

/// `n` occurs among `nodes`.
pub open spec fn contains_name(nodes: Seq<Seq<char>>, n: Seq<char>) -> bool {
    exists|i: int| 0 <= i < nodes.len() && nodes[i] == n
}

/// No name occurs twice in `nodes`.
pub open spec fn distinct_names(nodes: Seq<Seq<char>>) -> bool {
    forall|i: int, j: int| 0 <= i < j < nodes.len() ==> nodes[i] != nodes[j]
}

/// Character-wise equality of two strings.
fn str_eq(a: &str, b: &str) -> (r: bool)
    ensures
        r == (a@ == b@),
{
    let n = a.unicode_len();
    if n != b.unicode_len() {
        return false;
    }
    let mut i: usize = 0;
    while i < n
        invariant
            a@.len() == n,
            b@.len() == n,
            i <= n,
            forall|k: int| 0 <= k < i ==> a@[k] == b@[k],
        decreases n - i,
    {
        if a.get_char(i) != b.get_char(i) {
            return false;
        }
        i += 1;
    }
    proof {
        assert(a@ =~= b@);
    }
    true
}

/// Whether a node name already occurs in a route's node list.
fn vec_contains_string(v: &Vec<String>, s: &String) -> (r: bool)
    ensures
        r == contains_name(names_of(v@), s@),
{
    let mut i: usize = 0;
    while i < v.len()
        invariant
            i <= v@.len(),
            forall|k: int| 0 <= k < i ==> names_of(v@)[k] != s@,
        decreases v@.len() - i,
    {
        if str_eq(v[i].as_str(), s.as_str()) {
            assert(names_of(v@)[i as int] == s@);
            return true;
        }
        i += 1;
    }
    false
}

impl Route {
    /// Extend this route by one hop: append the next node and channel, and
    /// accumulate the next hop's envelope onto the route's envelope. The
    /// existing route is left untouched.
    pub fn create_new_route(
        &self,
        next_node: &String,
        next_channel_id: &String,
        next_constraints: Constraints,
    ) -> (r: Route)
        requires
            accumulation_fits(self.constraints@, next_constraints@),
        ensures
            r@.nodes == self@.nodes.push(next_node@),
            r@.channel_ids == self@.channel_ids.push(next_channel_id@),
            r@.constraints == accumulate_envelopes(self.constraints@, next_constraints@),
    {
        let mut new_nodes = clone_string_vec(&self.nodes);
        new_nodes.push(next_node.clone());
        let mut new_channel_ids = clone_string_vec(&self.channel_ids);
        new_channel_ids.push(next_channel_id.clone());
        let new_route_constraints = self.constraints.accumulate(&next_constraints);

        let r = Route {
            nodes: new_nodes,
            channel_ids: new_channel_ids,
            constraints: new_route_constraints,
        };
        proof {
            assert(r@.nodes =~= self@.nodes.push(next_node@));
            assert(r@.channel_ids =~= self@.channel_ids.push(next_channel_id@));
        }
        r
    }
}

/// Copy a vector of strings, name for name.
fn clone_string_vec(v: &Vec<String>) -> (r: Vec<String>)
    ensures
        names_of(r@) == names_of(v@),
{
    let mut r: Vec<String> = Vec::new();
    let mut i: usize = 0;
    while i < v.len()
        invariant
            i <= v@.len(),
            r@.len() == i,
            forall|k: int| 0 <= k < i ==> names_of(r@)[k] == names_of(v@)[k],
        decreases v@.len() - i,
    {
        r.push(v[i].clone());
        i += 1;
    }
    proof {
        assert(names_of(r@) =~= names_of(v@));
    }
    r
}

/// A possible single-hop extension: the neighboring node, the channel that
/// reaches it, and the forwarding policy that neighbor applies.
pub ghost struct CandidateView {
    pub node: Seq<char>,
    pub channel_id: Seq<char>,
    pub policy: NodePolicyView,
}

/// The extension a single edge offers from `node`: the far endpoint together
/// with that endpoint's own forwarding policy, or nothing when the edge does
/// not touch `node`.
pub open spec fn edge_candidate(e: EdgeView, node: Seq<char>) -> Option<CandidateView> {
    if e.node1_pub == node {
        Some(
            CandidateView { node: e.node2_pub, channel_id: e.channel_id, policy: e.node2_policy },
        )
    } else if e.node2_pub == node {
        Some(
            CandidateView { node: e.node1_pub, channel_id: e.channel_id, policy: e.node1_policy },
        )
    } else {
        None
    }
}

/// All extensions the edges offer from `node`, in edge order.
pub open spec fn incident_candidates(edges: Seq<EdgeView>, node: Seq<char>) -> Seq<CandidateView>
    decreases edges.len(),
{
    if edges.len() == 0 {
        Seq::empty()
    } else {
        let rest = incident_candidates(edges.drop_last(), node);
        match edge_candidate(edges.last(), node) {
            Some(c) => rest.push(c),
            None => rest,
        }
    }
}

/// The candidates a vector of (node, channel, policy) triples denotes.
pub open spec fn candidates_view(s: Seq<(String, String, NodePolicy)>) -> Seq<CandidateView> {
    s.map_values(
        |t: (String, String, NodePolicy)|
            CandidateView { node: t.0@, channel_id: t.1@, policy: t.2@ },
    )
}

/// Collect, for every channel incident to `node_pub`, the neighboring node,
/// the channel identifier, and the policy the neighbor applies, in the order
/// the edges are stored.
pub fn shared_edge_node_policies(channel_graph: &ChannelGraph, node_pub: &str) -> (r: Vec<
    (String, String, NodePolicy),
>)
    ensures
        candidates_view(r@) == incident_candidates(channel_graph@.edges, node_pub@),
{
    let mut shared_edge_node_n_policy: Vec<(String, String, NodePolicy)> = Vec::new();
    let mut i: usize = 0;
    while i < channel_graph.edges.len()
        invariant
            i <= channel_graph.edges@.len(),
            candidates_view(shared_edge_node_n_policy@) =~= incident_candidates(
                channel_graph@.edges.subrange(0, i as int),
                node_pub@,
            ),
        decreases channel_graph.edges@.len() - i,
    {
        let edge = &channel_graph.edges[i];
        proof {
            assert(channel_graph@.edges.subrange(0, i + 1 as int).drop_last() =~= channel_graph@
                .edges.subrange(0, i as int));
            assert(channel_graph@.edges.subrange(0, i + 1 as int).last() == edge@);
        }
        if str_eq(node_pub, edge.node1_pub.as_str()) {
            shared_edge_node_n_policy.push(
                (edge.node2_pub.clone(), edge.channel_id.clone(), edge.node2_policy.clone()),
            );
        } else if str_eq(node_pub, edge.node2_pub.as_str()) {
            shared_edge_node_n_policy.push(
                (edge.node1_pub.clone(), edge.channel_id.clone(), edge.node1_policy.clone()),
            );
        }
        proof {
            assert(candidates_view(shared_edge_node_n_policy@) =~= incident_candidates(
                channel_graph@.edges.subrange(0, i + 1 as int),
                node_pub@,
            ));
        }
        i += 1;
    }
    proof {
        assert(channel_graph@.edges.subrange(0, channel_graph.edges@.len() as int) =~= channel_graph@.edges);
    }
    shared_edge_node_n_policy
}

/// The routes a vector of routes denotes.
pub open spec fn routes_view(s: Seq<Route>) -> Seq<RouteView> {
    s.map_values(|r: Route| r@)
}

/// The route obtained by taking candidate `c` from route `r`.
pub open spec fn extend_route(r: RouteView, c: CandidateView) -> RouteView {
    RouteView {
        nodes: r.nodes.push(c.node),
        channel_ids: r.channel_ids.push(c.channel_id),
        constraints: accumulate_envelopes(r.constraints, policy_envelope(c.policy)),
    }
}

/// Candidate `c` is a valid extension of route `r` under target `real`: its
/// node is not yet on the route, its policy is well-formed, and the
/// accumulated envelope does not exceed the target.
pub open spec fn candidate_accepted(r: RouteView, c: CandidateView, target: Envelope) -> bool {
    &&& !contains_name(r.nodes, c.node)
    &&& policy_parses(c.policy)
    &&& !envelope_exceeds(accumulate_envelopes(r.constraints, policy_envelope(c.policy)), target)
}

/// Candidate `c` forces the enumeration to abort: its node is new to the
/// route, so its policy must be read, and a numeric field of that policy is
/// malformed.
pub open spec fn candidate_malformed(r: RouteView, c: CandidateView) -> bool {
    !contains_name(r.nodes, c.node) && !policy_parses(c.policy)
}

/// All valid extensions of `r` among `cands`, in candidate order.
pub open spec fn good_extensions(r: RouteView, cands: Seq<CandidateView>, target: Envelope) -> Seq<
    RouteView,
>
    decreases cands.len(),
{
    if cands.len() == 0 {
        Seq::empty()
    } else {
        let rest = good_extensions(r, cands.drop_last(), target);
        if candidate_accepted(r, cands.last(), target) {
            rest.push(extend_route(r, cands.last()))
        } else {
            rest
        }
    }
}

/// Some candidate in `cands` aborts the enumeration from `r`.
pub open spec fn has_malformed_candidate(r: RouteView, cands: Seq<CandidateView>) -> bool {
    exists|i: int| 0 <= i < cands.len() && candidate_malformed(r, cands[i])
}

/// The candidates the graph offers at the frontier node of `r`.
pub open spec fn route_candidates(r: RouteView, g: ChannelGraphView) -> Seq<CandidateView> {
    incident_candidates(g.edges, r.nodes.last())
}

/// Compute every valid single-hop extension of `current_route` under the
/// advertised target. `Ok(None)` means the route has no valid extension and
/// is therefore terminal; `Ok(Some(v))` holds the extensions, one per
/// accepted candidate, in candidate order. Fails exactly when a policy the
/// search must read is malformed.
pub fn next_good_routes(
    current_route: &Route,
    channel_graph: &ChannelGraph,
    real_constraints: &Constraints,
) -> (r: Result<Option<Vec<Route>>, EnumerationError>)
    requires
        current_route.nodes@.len() > 0,
    ensures
        match r {
            Ok(opt) => !has_malformed_candidate(
                current_route@,
                route_candidates(current_route@, channel_graph@),
            ) && match opt {
                Some(v) => routes_view(v@) == good_extensions(
                    current_route@,
                    route_candidates(current_route@, channel_graph@),
                    real_constraints@,
                ) && v@.len() > 0,
                None => good_extensions(
                    current_route@,
                    route_candidates(current_route@, channel_graph@),
                    real_constraints@,
                ).len() == 0,
            },
            Err(e) => has_malformed_candidate(
                current_route@,
                route_candidates(current_route@, channel_graph@),
            ) && e == EnumerationError::MalformedPolicy,
        },
{
    let last_node_pub = &current_route.nodes[current_route.nodes.len() - 1];
    let next_node_policies = shared_edge_node_policies(channel_graph, last_node_pub.as_str());
    let ghost cands = route_candidates(current_route@, channel_graph@);
    proof {
        assert(current_route@.nodes.last() == last_node_pub@);
        assert(candidates_view(next_node_policies@) == cands);
    }

    let mut next_routes: Vec<Route> = Vec::new();
    let mut idx: usize = 0;
    while idx < next_node_policies.len()
        invariant
            idx <= next_node_policies@.len(),
            current_route.nodes@.len() > 0,
            candidates_view(next_node_policies@) == cands,
            cands == route_candidates(current_route@, channel_graph@),
            routes_view(next_routes@) =~= good_extensions(
                current_route@,
                cands.subrange(0, idx as int),
                real_constraints@,
            ),
            forall|k: int| 0 <= k < idx ==> !candidate_malformed(current_route@, cands[k]),
        decreases next_node_policies@.len() - idx,
    {
        let t = &next_node_policies[idx];
        let ghost cand = cands[idx as int];
        proof {
            assert(cand == candidates_view(next_node_policies@)[idx as int]);
            assert(cands.subrange(0, idx + 1 as int).drop_last() =~= cands.subrange(0, idx as int));
            assert(cands.subrange(0, idx + 1 as int).last() == cand);
        }
        if vec_contains_string(&current_route.nodes, &t.0) {
            proof {
                assert(contains_name(current_route@.nodes, cand.node));
                assert(!candidate_accepted(current_route@, cand, real_constraints@));
            }
        } else {
            match get_constraints_from_node_policy(&t.2) {
                Err(e) => {
                    proof {
                        assert(candidate_malformed(current_route@, cand));
                    }
                    return Err(e);
                },
                Ok(next_channel_constraints) => {
                    match current_route.constraints.checked_accumulate(&next_channel_constraints) {
                        None => {
                            proof {
                                let sum = accumulate_envelopes(
                                    current_route@.constraints,
                                    policy_envelope(cand.policy),
                                );
                                assert(envelope_exceeds(sum, real_constraints@));
                                assert(!candidate_accepted(current_route@, cand, real_constraints@));
                            }
                        },
                        Some(sum_constraints) => {
                            if !sum_constraints.exceeds(real_constraints) {
                                let new_route = current_route.create_new_route(
                                    &t.0,
                                    &t.1,
                                    next_channel_constraints,
                                );
                                proof {
                                    assert(new_route@ == extend_route(current_route@, cand));
                                    assert(candidate_accepted(
                                        current_route@,
                                        cand,
                                        real_constraints@,
                                    ));
                                }
                                next_routes.push(new_route);
                            } else {
                                proof {
                                    assert(!candidate_accepted(
                                        current_route@,
                                        cand,
                                        real_constraints@,
                                    ));
                                }
                            }
                        },
                    }
                },
            }
        }
        proof {
            assert(routes_view(next_routes@) =~= good_extensions(
                current_route@,
                cands.subrange(0, idx + 1 as int),
                real_constraints@,
            ));
        }
        idx += 1;
    }
    proof {
        assert(cands.subrange(0, next_node_policies@.len() as int) =~= cands);
    }

    if next_routes.is_empty() {
        Ok(None)
    } else {
        Ok(Some(next_routes))
    }
}

/// A route the search may hold: nonempty, starting at the introduction node,
/// loop-free, with one channel per extension, and within the target envelope.
pub open spec fn route_wf(r: RouteView, intro: Seq<char>, target: Envelope) -> bool {
    &&& r.nodes.len() >= 1
    &&& r.nodes[0] == intro
    &&& distinct_names(r.nodes)
    &&& r.channel_ids.len() == r.nodes.len() - 1
    &&& !envelope_exceeds(r.constraints, target)
}

/// A terminal route: none of the candidates at its frontier is a valid
/// extension, and none is malformed, so the search keeps the route itself.
pub open spec fn route_terminal(r: RouteView, g: ChannelGraphView, target: Envelope) -> bool {
    &&& !has_malformed_candidate(r, route_candidates(r, g))
    &&& good_extensions(r, route_candidates(r, g), target).len() == 0
}

/// The route is realized in the graph: it starts with the identity envelope,
/// and each extension takes a channel that an edge offers from the previous
/// frontier node, accumulating the neighbor's parsed policy envelope.
pub open spec fn valid_route_in_graph(g: ChannelGraphView, r: RouteView) -> bool
    decreases r.nodes.len(),
{
    if r.nodes.len() == 0 {
        false
    } else if r.nodes.len() == 1 {
        r.channel_ids.len() == 0 && r.constraints == identity_envelope()
    } else {
        &&& r.channel_ids.len() == r.nodes.len() - 1
        &&& exists|p: NodePolicyView, prev: Envelope|
            {
                &&& policy_parses(p)
                &&& route_step(
                    g,
                    r.nodes[r.nodes.len() - 2],
                    (CandidateView {
                        node: r.nodes.last(),
                        channel_id: r.channel_ids.last(),
                        policy: p,
                    }),
                )
                &&& r.constraints == #[trigger] accumulate_envelopes(prev, policy_envelope(p))
                &&& valid_route_in_graph(
                    g,
                    (RouteView {
                        nodes: r.nodes.drop_last(),
                        channel_ids: r.channel_ids.drop_last(),
                        constraints: prev,
                    }),
                )
            }
    }
}

/// The route the search starts from: the introduction node alone, with the
/// identity envelope.
pub open spec fn initial_route(intro: Seq<char>) -> RouteView {
    RouteView {
        nodes: seq![intro],
        channel_ids: Seq::empty(),
        constraints: identity_envelope(),
    }
}

/// Route `r` arises from `anc` by zero or more accepted extensions: the
/// reachability relation the search explores.
pub open spec fn route_descends(
    g: ChannelGraphView,
    target: Envelope,
    anc: RouteView,
    r: RouteView,
) -> bool
    decreases r.nodes.len(),
{
    r == anc || (r.nodes.len() > anc.nodes.len() && r.nodes.len() > 1 && exists|
        p: NodePolicyView,
        prev: Envelope,
    |
        #[trigger] descends_step(g, target, r, p, prev) && route_descends(
            g,
            target,
            anc,
            descent_parent(r, prev),
        ))
}

/// The parent from which `r` was extended, supposing its envelope was `prev`.
pub open spec fn descent_parent(r: RouteView, prev: Envelope) -> RouteView {
    RouteView {
        nodes: r.nodes.drop_last(),
        channel_ids: r.channel_ids.drop_last(),
        constraints: prev,
    }
}

/// The last extension of `r` on a descent: its parent route held envelope
/// `prev` and took the neighbor policy `p` over a channel the graph offers.
pub open spec fn descends_step(
    g: ChannelGraphView,
    target: Envelope,
    r: RouteView,
    p: NodePolicyView,
    prev: Envelope,
) -> bool {
    let parent = descent_parent(r, prev);
    let c = CandidateView { node: r.nodes.last(), channel_id: r.channel_ids.last(), policy: p };
    &&& r.nodes.len() > 1
    &&& r.channel_ids.len() == r.nodes.len() - 1
    &&& r.constraints == accumulate_envelopes(prev, policy_envelope(p))
    &&& route_step(g, parent.nodes.last(), c)
    &&& candidate_accepted(parent, c, target)
}

/// Every forwarding policy of the graph has well-formed numeric fields.
pub open spec fn graph_policies_parse(g: ChannelGraphView) -> bool {
    forall|i: int|
        0 <= i < g.edges.len() ==> policy_parses(#[trigger] g.edges[i].node1_policy)
            && policy_parses(g.edges[i].node2_policy)
}

/// Some edge of `g` offers candidate `c` from node `from`.
pub open spec fn route_step(g: ChannelGraphView, from: Seq<char>, c: CandidateView) -> bool {
    exists|j: int| 0 <= j < g.edges.len() && edge_candidate(#[trigger] g.edges[j], from) == Some(c)
}

/// Every incident candidate is offered by some edge of the graph; the result
/// names that edge.
proof fn lemma_incident_candidate_origin(edges: Seq<EdgeView>, node: Seq<char>, k: int) -> (j: int)
    requires
        0 <= k < incident_candidates(edges, node).len(),
    ensures
        0 <= j < edges.len(),
        edge_candidate(edges[j], node) == Some(incident_candidates(edges, node)[k]),
    decreases edges.len(),
{
    let cs = incident_candidates(edges, node);
    let rest = incident_candidates(edges.drop_last(), node);
    if k < rest.len() {
        let j = lemma_incident_candidate_origin(edges.drop_last(), node, k);
        assert(edges[j] == edges.drop_last()[j]);
        assert(cs[k] == rest[k]);
        j
    } else {
        let c = edge_candidate(edges.last(), node)->Some_0;
        assert(cs[k] == c);
        let j = edges.len() - 1;
        assert(edges[j] == edges.last());
        j
    }
}

/// A malformed candidate at some route means the graph holds a malformed policy.
proof fn lemma_malformed_candidate_graph(r: RouteView, g: ChannelGraphView)
    requires
        has_malformed_candidate(r, route_candidates(r, g)),
    ensures
        !graph_policies_parse(g),
{
    let cands = route_candidates(r, g);
    let k = choose|k: int| 0 <= k < cands.len() && candidate_malformed(r, cands[k]);
    let j = lemma_incident_candidate_origin(g.edges, r.nodes.last(), k);
    assert(!(policy_parses(g.edges[j].node1_policy) && policy_parses(g.edges[j].node2_policy)));
}

/// Every valid extension of a well-formed route is itself well-formed.
proof fn lemma_good_extensions_wf(
    r: RouteView,
    cands: Seq<CandidateView>,
    target: Envelope,
    intro: Seq<char>,
)
    requires
        route_wf(r, intro, target),
    ensures
        forall|k: int|
            0 <= k < good_extensions(r, cands, target).len() ==> route_wf(
                #[trigger] good_extensions(r, cands, target)[k],
                intro,
                target,
            ),
    decreases cands.len(),
{
    if cands.len() > 0 {
        lemma_good_extensions_wf(r, cands.drop_last(), target, intro);
        let gs = good_extensions(r, cands, target);
        let rest = good_extensions(r, cands.drop_last(), target);
        if candidate_accepted(r, cands.last(), target) {
            let e = extend_route(r, cands.last());
            assert(distinct_names(e.nodes)) by {
                assert forall|i: int, j: int| 0 <= i < j < e.nodes.len() implies e.nodes[i]
                    != e.nodes[j] by {
                    if j < e.nodes.len() - 1 {
                        assert(e.nodes[i] == r.nodes[i] && e.nodes[j] == r.nodes[j]);
                    } else {
                        assert(e.nodes[i] == r.nodes[i]);
                        assert(e.nodes[j] == cands.last().node);
                        assert(!contains_name(r.nodes, cands.last().node));
                    }
                }
            }
            assert(route_wf(e, intro, target));
        }
        assert forall|k: int| 0 <= k < gs.len() implies route_wf(
            #[trigger] gs[k],
            intro,
            target,
        ) by {
            if k < rest.len() {
                assert(gs[k] == rest[k]);
            } else {
                assert(gs[k] == extend_route(r, cands.last()));
            }
        }
    }
}

/// Every valid extension arises from an accepted candidate; the result names
/// that candidate.
proof fn lemma_good_extension_origin(
    r: RouteView,
    cands: Seq<CandidateView>,
    target: Envelope,
    k: int,
) -> (i: int)
    requires
        0 <= k < good_extensions(r, cands, target).len(),
    ensures
        0 <= i < cands.len(),
        good_extensions(r, cands, target)[k] == extend_route(r, cands[i]),
        candidate_accepted(r, cands[i], target),
    decreases cands.len(),
{
    let gs = good_extensions(r, cands, target);
    let rest = good_extensions(r, cands.drop_last(), target);
    if k < rest.len() {
        let i = lemma_good_extension_origin(r, cands.drop_last(), target, k);
        assert(cands[i] == cands.drop_last()[i]);
        assert(gs[k] == rest[k]);
        i
    } else {
        assert(candidate_accepted(r, cands.last(), target));
        assert(gs[k] == extend_route(r, cands.last()));
        let i = cands.len() - 1;
        assert(cands[i] == cands.last());
        i
    }
}

/// An offered candidate occurs among the incident candidates; the result
/// names its position.
proof fn lemma_candidate_in_incident(edges: Seq<EdgeView>, node: Seq<char>, j: int) -> (k: int)
    requires
        0 <= j < edges.len(),
        edge_candidate(edges[j], node) is Some,
    ensures
        0 <= k < incident_candidates(edges, node).len(),
        incident_candidates(edges, node)[k] == edge_candidate(edges[j], node)->Some_0,
    decreases edges.len(),
{
    let cs = incident_candidates(edges, node);
    let rest = incident_candidates(edges.drop_last(), node);
    if j == edges.len() - 1 {
        assert(edges[j] == edges.last());
        rest.len() as int
    } else {
        assert(edges.drop_last()[j] == edges[j]);
        let k = lemma_candidate_in_incident(edges.drop_last(), node, j);
        assert(cs[k] == rest[k]);
        k
    }
}

/// The extension by an accepted candidate occurs among the valid extensions;
/// the result names its position.
proof fn lemma_accepted_extension_included(
    r: RouteView,
    cands: Seq<CandidateView>,
    target: Envelope,
    i: int,
) -> (k: int)
    requires
        0 <= i < cands.len(),
        candidate_accepted(r, cands[i], target),
    ensures
        0 <= k < good_extensions(r, cands, target).len(),
        good_extensions(r, cands, target)[k] == extend_route(r, cands[i]),
    decreases cands.len(),
{
    let gs = good_extensions(r, cands, target);
    let rest = good_extensions(r, cands.drop_last(), target);
    if i == cands.len() - 1 {
        assert(cands[i] == cands.last());
        rest.len() as int
    } else {
        assert(cands.drop_last()[i] == cands[i]);
        let k = lemma_accepted_extension_included(r, cands.drop_last(), target, i);
        assert(gs[k] == rest[k]);
        k
    }
}

/// A descendant is never shorter than its ancestor.
proof fn lemma_descends_len(g: ChannelGraphView, target: Envelope, anc: RouteView, r: RouteView)
    requires
        route_descends(g, target, anc, r),
    ensures
        r.nodes.len() >= anc.nodes.len(),
    decreases r.nodes.len(),
{
    if r != anc {
        let (p, prev) = choose|p: NodePolicyView, prev: Envelope|
            #[trigger] descends_step(g, target, r, p, prev) && route_descends(
                g,
                target,
                anc,
                descent_parent(r, prev),
            );
        lemma_descends_len(g, target, anc, descent_parent(r, prev));
    }
}

/// A proper descent from `anc` begins with some accepted candidate at `anc`;
/// the result names that candidate.
proof fn lemma_descends_first_step(
    g: ChannelGraphView,
    target: Envelope,
    anc: RouteView,
    r: RouteView,
) -> (c: CandidateView)
    requires
        route_descends(g, target, anc, r),
        r != anc,
    ensures
        route_step(g, anc.nodes.last(), c),
        candidate_accepted(anc, c, target),
        route_descends(g, target, extend_route(anc, c), r),
    decreases r.nodes.len(),
{
    let (p, prev) = choose|p: NodePolicyView, prev: Envelope|
        #[trigger] descends_step(g, target, r, p, prev) && route_descends(
            g,
            target,
            anc,
            descent_parent(r, prev),
        );
    let parent = descent_parent(r, prev);
    let cc = CandidateView { node: r.nodes.last(), channel_id: r.channel_ids.last(), policy: p };
    if parent == anc {
        assert(extend_route(parent, cc).nodes =~= r.nodes);
        assert(extend_route(parent, cc).channel_ids =~= r.channel_ids);
        assert(extend_route(parent, cc) == r);
        cc
    } else {
        let c = lemma_descends_first_step(g, target, anc, parent);
        lemma_descends_len(g, target, extend_route(anc, c), parent);
        assert(descends_step(g, target, r, p, prev) && route_descends(
            g,
            target,
            extend_route(anc, c),
            descent_parent(r, prev),
        ));
        assert(route_descends(g, target, extend_route(anc, c), r));
        c
    }
}

/// Every well-formed route realized in the graph descends from the initial
/// single-node route at its introduction node.
proof fn lemma_wf_valid_descends(
    g: ChannelGraphView,
    target: Envelope,
    intro: Seq<char>,
    r: RouteView,
)
    requires
        route_wf(r, intro, target),
        valid_route_in_graph(g, r),
    ensures
        route_descends(g, target, initial_route(intro), r),
    decreases r.nodes.len(),
{
    if r.nodes.len() == 1 {
        assert(r.nodes =~= seq![intro]);
        assert(r.channel_ids =~= Seq::<Seq<char>>::empty());
        assert(r == initial_route(intro));
    } else {
        let (p, prev) = choose|p: NodePolicyView, prev: Envelope|
            {
                &&& policy_parses(p)
                &&& route_step(
                    g,
                    r.nodes[r.nodes.len() - 2],
                    (CandidateView {
                        node: r.nodes.last(),
                        channel_id: r.channel_ids.last(),
                        policy: p,
                    }),
                )
                &&& r.constraints == #[trigger] accumulate_envelopes(prev, policy_envelope(p))
                &&& valid_route_in_graph(
                    g,
                    (RouteView {
                        nodes: r.nodes.drop_last(),
                        channel_ids: r.channel_ids.drop_last(),
                        constraints: prev,
                    }),
                )
            };
        let parent = RouteView {
            nodes: r.nodes.drop_last(),
            channel_ids: r.channel_ids.drop_last(),
            constraints: prev,
        };
        let c = CandidateView { node: r.nodes.last(), channel_id: r.channel_ids.last(), policy: p };
        // the parent's envelope never exceeds the target, since accumulation
        // only grows each field
        assert(prev.path_length <= r.constraints.path_length);
        assert(prev.fee_base_msat <= r.constraints.fee_base_msat);
        assert(prev.htlc_minimum_msat <= r.constraints.htlc_minimum_msat);
        assert(prev.cltv_expiry_delta <= r.constraints.cltv_expiry_delta);
        assert(!envelope_exceeds(prev, target));
        assert(distinct_names(parent.nodes)) by {
            assert forall|i: int, m: int| 0 <= i < m < parent.nodes.len() implies parent.nodes[i]
                != parent.nodes[m] by {
                assert(parent.nodes[i] == r.nodes[i] && parent.nodes[m] == r.nodes[m]);
            }
        }
        assert(route_wf(parent, intro, target));
        lemma_wf_valid_descends(g, target, intro, parent);
        assert(!contains_name(parent.nodes, c.node)) by {
            if contains_name(parent.nodes, c.node) {
                let w = choose|w: int|
                    0 <= w < parent.nodes.len() && parent.nodes[w] == c.node;
                assert(r.nodes[w] == r.nodes[r.nodes.len() - 1]);
                assert(false);
            }
        }
        assert(candidate_accepted(parent, c, target));
        assert(parent == descent_parent(r, prev));
        assert(descends_step(g, target, r, p, prev) && route_descends(
            g,
            target,
            initial_route(intro),
            descent_parent(r, prev),
        ));
        assert(route_descends(g, target, initial_route(intro), r));
    }
}

/// All node names that occur as an endpoint of some edge.
pub open spec fn edge_endpoints(edges: Seq<EdgeView>) -> Set<Seq<char>>
    decreases edges.len(),
{
    if edges.len() == 0 {
        Set::empty()
    } else {
        edge_endpoints(edges.drop_last()).insert(edges.last().node1_pub).insert(
            edges.last().node2_pub,
        )
    }
}

/// The endpoint set is finite and no larger than twice the edge count.
proof fn lemma_edge_endpoints_finite(edges: Seq<EdgeView>)
    ensures
        edge_endpoints(edges).finite(),
        edge_endpoints(edges).len() <= 2 * edges.len(),
    decreases edges.len(),
{
    if edges.len() > 0 {
        lemma_edge_endpoints_finite(edges.drop_last());
    }
}

/// Both endpoints of every edge are in the endpoint set.
proof fn lemma_edge_endpoints_contains(edges: Seq<EdgeView>, j: int)
    requires
        0 <= j < edges.len(),
    ensures
        edge_endpoints(edges).contains(edges[j].node1_pub),
        edge_endpoints(edges).contains(edges[j].node2_pub),
    decreases edges.len(),
{
    if j < edges.len() - 1 {
        lemma_edge_endpoints_contains(edges.drop_last(), j);
        assert(edges.drop_last()[j] == edges[j]);
    } else {
        assert(edges[j] == edges.last());
    }
}

/// Every node of the route after the introduction node occurs in the graph.
pub open spec fn route_nodes_in_graph(r: RouteView, g: ChannelGraphView) -> bool {
    forall|i: int| 1 <= i < r.nodes.len() ==> edge_endpoints(g.edges).contains(#[trigger] r.nodes[i])
}

/// A loop-free route over the graph's endpoints cannot be longer than the
/// endpoint set plus the introduction node.
proof fn lemma_route_len_bound(r: RouteView, g: ChannelGraphView)
    requires
        r.nodes.len() >= 1,
        distinct_names(r.nodes),
        route_nodes_in_graph(r, g),
    ensures
        r.nodes.len() <= edge_endpoints(g.edges).len() + 1,
{
    let rest = r.nodes.subrange(1, r.nodes.len() as int);
    assert(rest.no_duplicates());
    rest.unique_seq_to_set();
    lemma_edge_endpoints_finite(g.edges);
    assert(rest.to_set().subset_of(edge_endpoints(g.edges))) by {
        assert forall|x: Seq<char>| rest.to_set().contains(x) implies edge_endpoints(
            g.edges,
        ).contains(x) by {
            let i = choose|i: int| 0 <= i < rest.len() && rest[i] == x;
            assert(r.nodes[i + 1] == x);
        }
    }
    vstd::set_lib::lemma_len_subset(rest.to_set(), edge_endpoints(g.edges));
}

impl Clone for Route {
    /// Copy a route, name for name; the envelope is a plain value.
    fn clone(&self) -> (r: Self)
        ensures
            r@ == self@,
    {
        Route {
            nodes: clone_string_vec(&self.nodes),
            channel_ids: clone_string_vec(&self.channel_ids),
            constraints: self.constraints,
        }
    }
}

/// Recursive step of the enumeration: explore every valid extension of
/// `cur_route`; when none exists, the route is complete and joins
/// `final_routes`. Only completed routes are ever appended, and routes
/// already collected are never touched.
fn get_good_routes(
    final_routes: &mut Vec<Route>,
    cur_route: &Route,
    channel_graph: &ChannelGraph,
    real_constraints: &Constraints,
) -> (res: Result<(), EnumerationError>)
    requires
        cur_route@.nodes.len() >= 1,
        distinct_names(cur_route@.nodes),
        cur_route@.channel_ids.len() == cur_route@.nodes.len() - 1,
        !envelope_exceeds(cur_route@.constraints, real_constraints@),
        route_nodes_in_graph(cur_route@, channel_graph@),
        valid_route_in_graph(channel_graph@, cur_route@),
    ensures
        final(final_routes)@.len() >= old(final_routes)@.len(),
        final(final_routes)@.subrange(0, old(final_routes)@.len() as int) == old(final_routes)@,
        forall|i: int|
            old(final_routes)@.len() <= i < final(final_routes)@.len() ==> route_wf(
                #[trigger] final(final_routes)@[i]@,
                cur_route@.nodes[0],
                real_constraints@,
            ) && route_terminal(final(final_routes)@[i]@, channel_graph@, real_constraints@)
                && valid_route_in_graph(channel_graph@, final(final_routes)@[i]@),
        match res {
            Ok(_) => final(final_routes)@.len() > old(final_routes)@.len() && forall|r: RouteView|
                #[trigger] route_descends(channel_graph@, real_constraints@, cur_route@, r)
                    && route_terminal(r, channel_graph@, real_constraints@) ==> exists|idx: int|
                    old(final_routes)@.len() <= idx < final(final_routes)@.len()
                        && final(final_routes)@[idx]@ == r,
            Err(e) => !graph_policies_parse(channel_graph@) && e
                == EnumerationError::MalformedPolicy,
        },
    decreases edge_endpoints(channel_graph@.edges).len() + 1 - cur_route@.nodes.len(),
{
    proof {
        lemma_route_len_bound(cur_route@, channel_graph@);
    }
    match next_good_routes(cur_route, channel_graph, real_constraints) {
        Err(e) => {
            proof {
                lemma_malformed_candidate_graph(cur_route@, channel_graph@);
                assert(final_routes@.subrange(0, final_routes@.len() as int) =~= final_routes@);
            }
            Err(e)
        },
        Ok(None) => {
            final_routes.push(cur_route.clone());
            proof {
                assert(route_terminal(cur_route@, channel_graph@, real_constraints@));
                assert(route_wf(cur_route@, cur_route@.nodes[0], real_constraints@));
                assert(final_routes@.subrange(0, final_routes@.len() - 1) =~= final_routes@
                    .drop_last());
                let cands = route_candidates(cur_route@, channel_graph@);
                assert forall|r: RouteView|
                    #[trigger] route_descends(channel_graph@, real_constraints@, cur_route@, r)
                        && route_terminal(r, channel_graph@, real_constraints@) implies exists|
                    idx: int,
                |
                    old(final_routes)@.len() <= idx < final_routes@.len() && final_routes@[idx]@
                        == r by {
                    if r == cur_route@ {
                        assert(final_routes@[final_routes@.len() - 1]@ == r);
                    } else {
                        let c = lemma_descends_first_step(
                            channel_graph@,
                            real_constraints@,
                            cur_route@,
                            r,
                        );
                        let j = choose|j: int|
                            0 <= j < channel_graph@.edges.len() && edge_candidate(
                                #[trigger] channel_graph@.edges[j],
                                cur_route@.nodes.last(),
                            ) == Some(c);
                        let k = lemma_candidate_in_incident(
                            channel_graph@.edges,
                            cur_route@.nodes.last(),
                            j,
                        );
                        let ke = lemma_accepted_extension_included(
                            cur_route@,
                            cands,
                            real_constraints@,
                            k,
                        );
                        assert(false);
                    }
                }
            }
            Ok(())
        },
        Ok(Some(next_routes)) => {
            let ghost cands = route_candidates(cur_route@, channel_graph@);
            let ghost intro = cur_route@.nodes[0];
            let ghost base = final_routes@;
            let mut k: usize = 0;
            while k < next_routes.len()
                invariant
                    base == old(final_routes)@,
                    route_wf(cur_route@, intro, real_constraints@),
                    valid_route_in_graph(channel_graph@, cur_route@),
                    cur_route@.nodes[0] == intro,
                    route_nodes_in_graph(cur_route@, channel_graph@),
                    cands == route_candidates(cur_route@, channel_graph@),
                    routes_view(next_routes@) == good_extensions(
                        cur_route@,
                        cands,
                        real_constraints@,
                    ),
                    next_routes@.len() > 0,
                    k <= next_routes@.len(),
                    final_routes@.len() >= base.len(),
                    k > 0 ==> final_routes@.len() > base.len(),
                    final_routes@.subrange(0, base.len() as int) == base,
                    forall|i: int|
                        base.len() <= i < final_routes@.len() ==> route_wf(
                            #[trigger] final_routes@[i]@,
                            intro,
                            real_constraints@,
                        ) && route_terminal(final_routes@[i]@, channel_graph@, real_constraints@)
                            && valid_route_in_graph(channel_graph@, final_routes@[i]@),
                    forall|k2: int, r: RouteView|
                        0 <= k2 < k && #[trigger] route_descends(
                            channel_graph@,
                            real_constraints@,
                            routes_view(next_routes@)[k2],
                            r,
                        ) && route_terminal(r, channel_graph@, real_constraints@) ==> exists|
                            idx: int,
                        |
                            base.len() <= idx < final_routes@.len() && final_routes@[idx]@ == r,
                decreases next_routes@.len() - k,
            {
                let child = &next_routes[k];
                proof {
                    lemma_good_extensions_wf(cur_route@, cands, real_constraints@, intro);
                    assert(child@ == routes_view(next_routes@)[k as int]);
                    assert(good_extensions(cur_route@, cands, real_constraints@)[k as int]
                        == child@);
                    assert(route_wf(child@, intro, real_constraints@));
                    let i = lemma_good_extension_origin(
                        cur_route@,
                        cands,
                        real_constraints@,
                        k as int,
                    );
                    let j = lemma_incident_candidate_origin(
                        channel_graph@.edges,
                        cur_route@.nodes.last(),
                        i,
                    );
                    lemma_edge_endpoints_contains(channel_graph@.edges, j);
                    assert(edge_endpoints(channel_graph@.edges).contains(cands[i].node));
                    assert forall|m: int| 1 <= m < child@.nodes.len() implies edge_endpoints(
                        channel_graph@.edges,
                    ).contains(#[trigger] child@.nodes[m]) by {
                        if m < child@.nodes.len() - 1 {
                            assert(child@.nodes[m] == cur_route@.nodes[m]);
                        } else {
                            assert(child@.nodes[m] == cands[i].node);
                        }
                    }
                    lemma_route_len_bound(child@, channel_graph@);
                    assert(child@ == extend_route(cur_route@, cands[i]));
                    assert(edge_candidate(channel_graph@.edges[j], cur_route@.nodes.last())
                        == Some(cands[i]));
                    assert(route_step(channel_graph@, cur_route@.nodes.last(), cands[i]));
                    assert(child@.nodes.drop_last() =~= cur_route@.nodes);
                    assert(child@.channel_ids.drop_last() =~= cur_route@.channel_ids);
                    assert((RouteView {
                        nodes: child@.nodes.drop_last(),
                        channel_ids: child@.channel_ids.drop_last(),
                        constraints: cur_route@.constraints,
                    }) == cur_route@);
                    assert(child@.nodes[child@.nodes.len() - 2] == cur_route@.nodes.last());
                    assert((CandidateView {
                        node: child@.nodes.last(),
                        channel_id: child@.channel_ids.last(),
                        policy: cands[i].policy,
                    }) == cands[i]);
                    assert(policy_parses(cands[i].policy));
                    assert(child@.constraints == accumulate_envelopes(
                        cur_route@.constraints,
                        policy_envelope(cands[i].policy),
                    ));
                    assert(valid_route_in_graph(channel_graph@, child@));
                }
                let ghost before = final_routes@;
                let step = get_good_routes(final_routes, child, channel_graph, real_constraints);
                proof {
                    assert(final_routes@.subrange(0, base.len() as int) =~= final_routes@.subrange(
                        0,
                        before.len() as int,
                    ).subrange(0, base.len() as int));
                    assert(final_routes@.subrange(0, base.len() as int) == base);
                    assert forall|i: int| base.len() <= i < final_routes@.len() implies route_wf(
                        #[trigger] final_routes@[i]@,
                        intro,
                        real_constraints@,
                    ) && route_terminal(final_routes@[i]@, channel_graph@, real_constraints@)
                        && valid_route_in_graph(channel_graph@, final_routes@[i]@) by {
                        if i < before.len() {
                            assert(final_routes@.subrange(0, before.len() as int)[i]
                                == final_routes@[i]);
                            assert(before[i] == final_routes@[i]);
                        } else {
                            assert(route_wf(
                                final_routes@[i]@,
                                child@.nodes[0],
                                real_constraints@,
                            ));
                            assert(child@.nodes[0] == intro);
                        }
                    }
                }
                match step {
                    Err(e) => {
                        return Err(e);
                    },
                    Ok(_) => {
                        proof {
                            assert forall|k2: int, r: RouteView|
                                0 <= k2 < k + 1 && #[trigger] route_descends(
                                    channel_graph@,
                                    real_constraints@,
                                    routes_view(next_routes@)[k2],
                                    r,
                                ) && route_terminal(r, channel_graph@, real_constraints@) implies
                                exists|idx: int|
                                    base.len() <= idx < final_routes@.len() && final_routes@[idx]@
                                        == r by {
                                if k2 == k as int {
                                    assert(route_descends(
                                        channel_graph@,
                                        real_constraints@,
                                        child@,
                                        r,
                                    ));
                                } else {
                                    let idx = choose|idx: int|
                                        base.len() <= idx < before.len() && before[idx]@ == r;
                                    assert(final_routes@.subrange(0, before.len() as int)[idx]
                                        == final_routes@[idx]);
                                }
                            }
                        }
                    },
                }
                k += 1;
            }
            proof {
                assert forall|r: RouteView|
                    #[trigger] route_descends(channel_graph@, real_constraints@, cur_route@, r)
                        && route_terminal(r, channel_graph@, real_constraints@) implies exists|
                    idx: int,
                |
                    base.len() <= idx < final_routes@.len() && final_routes@[idx]@ == r by {
                    if r == cur_route@ {
                        assert(good_extensions(cur_route@, cands, real_constraints@).len() > 0);
                        assert(false);
                    } else {
                        let c = lemma_descends_first_step(
                            channel_graph@,
                            real_constraints@,
                            cur_route@,
                            r,
                        );
                        let j = choose|j: int|
                            0 <= j < channel_graph@.edges.len() && edge_candidate(
                                #[trigger] channel_graph@.edges[j],
                                cur_route@.nodes.last(),
                            ) == Some(c);
                        let ki = lemma_candidate_in_incident(
                            channel_graph@.edges,
                            cur_route@.nodes.last(),
                            j,
                        );
                        let ke = lemma_accepted_extension_included(
                            cur_route@,
                            cands,
                            real_constraints@,
                            ki,
                        );
                        assert(routes_view(next_routes@)[ke] == extend_route(cur_route@, c));
                        assert(route_descends(
                            channel_graph@,
                            real_constraints@,
                            routes_view(next_routes@)[ke],
                            r,
                        ));
                    }
                }
            }
            Ok(())
        },
    }
}

/// `routes` holds every terminal route of the search space: any well-formed
/// route that is realized in the graph and admits no further valid extension
/// occurs in it.
pub open spec fn contains_all_terminal_routes(
    routes: Seq<Route>,
    g: ChannelGraphView,
    intro: Seq<char>,
    target: Envelope,
) -> bool {
    forall|rv: RouteView|
        route_wf(rv, intro, target) && valid_route_in_graph(g, rv) && #[trigger] route_terminal(
            rv,
            g,
            target,
        ) ==> exists|i: int| 0 <= i < routes.len() && routes[i]@ == rv
}

/// Enumerate the complete set of terminal routes for an advertised blinded
/// path: every collected route starts at the advertised introduction node,
/// repeats no node, carries one channel per extension, is realized edge by
/// edge in the graph, stays within the advertised envelope under the bounding
/// comparison, and admits no further valid extension; conversely, every such
/// terminal route is collected. The result order is not significant, and
/// there is always at least one terminal route. Fails exactly when the search
/// had to read a forwarding policy with a malformed numeric field; a graph
/// whose policies all parse never fails.
pub fn get_final_routes(channel_graph: &ChannelGraph, blinded_path: &BlindedPath) -> (r: Result<
    Vec<Route>,
    EnumerationError,
>)
    requires
        blinded_path.blinded_nodes@.len() + 1 <= u32::MAX,
    ensures
        match r {
            Ok(routes) => routes@.len() >= 1 && forall|i: int|
                0 <= i < routes@.len() ==> route_wf(
                    #[trigger] routes@[i]@,
                    blinded_path.introduction_node@,
                    blinded_path_envelope(blinded_path@),
                ) && route_terminal(
                    routes@[i]@,
                    channel_graph@,
                    blinded_path_envelope(blinded_path@),
                ) && valid_route_in_graph(channel_graph@, routes@[i]@),
            Err(e) => !graph_policies_parse(channel_graph@) && e
                == EnumerationError::MalformedPolicy,
        },
        r matches Ok(routes) ==> contains_all_terminal_routes(
            routes@,
            channel_graph@,
            blinded_path.introduction_node@,
            blinded_path_envelope(blinded_path@),
        ),
        graph_policies_parse(channel_graph@) ==> r is Ok,
{
    let ghost intro = blinded_path.introduction_node@;
    let ghost target = blinded_path_envelope(blinded_path@);

    let intro_node = blinded_path.introduction_node.clone();
    let real_constraints = get_constraints_from_blinded_path(blinded_path);
    let mut final_routes: Vec<Route> = Vec::new();

    let mut first_nodes: Vec<String> = Vec::new();
    first_nodes.push(intro_node);
    let first_route = Route {
        nodes: first_nodes,
        channel_ids: Vec::new(),
        constraints: Constraints::default(),
    };
    proof {
        assert(first_route@.nodes =~= seq![intro]);
        assert(first_route@.channel_ids =~= Seq::<Seq<char>>::empty());
    }

    match get_good_routes(&mut final_routes, &first_route, channel_graph, &real_constraints) {
        Err(e) => Err(e),
        Ok(_) => {
            proof {
                assert(first_route@ == initial_route(intro));
                assert forall|rv: RouteView|
                    route_wf(
                        rv,
                        blinded_path.introduction_node@,
                        blinded_path_envelope(blinded_path@),
                    ) && valid_route_in_graph(channel_graph@, rv) && #[trigger] route_terminal(
                        rv,
                        channel_graph@,
                        blinded_path_envelope(blinded_path@),
                    ) implies exists|i: int|
                    0 <= i < final_routes@.len() && final_routes@[i]@ == rv by {
                    lemma_wf_valid_descends(channel_graph@, target, intro, rv);
                    assert(route_descends(channel_graph@, real_constraints@, first_route@, rv));
                }
                assert(contains_all_terminal_routes(
                    final_routes@,
                    channel_graph@,
                    blinded_path.introduction_node@,
                    blinded_path_envelope(blinded_path@),
                ));
            }
            Ok(final_routes)
        },
    }
}

/// The name of the node at which a route ends.
pub open spec fn route_last_node(r: Route) -> Seq<char> {
    r.nodes@.last()@
}

/// How many of `routes` end at `node`.
pub open spec fn count_routes_ending_at(routes: Seq<Route>, node: Seq<char>) -> int
    decreases routes.len(),
{
    if routes.len() == 0 {
        0
    } else {
        count_routes_ending_at(routes.drop_last(), node) + if routes.last().nodes@.len() > 0
            && route_last_node(routes.last()) == node {
            1int
        } else {
            0int
        }
    }
}

/// How many of `routes` have a nonempty node list, and so an endpoint at all.
pub open spec fn num_finished_routes(routes: Seq<Route>) -> int
    decreases routes.len(),
{
    if routes.len() == 0 {
        0
    } else {
        num_finished_routes(routes.drop_last()) + if routes.last().nodes@.len() > 0 {
            1int
        } else {
            0int
        }
    }
}

/// The sum of the counts of a list of (node, count) pairs.
pub open spec fn sum_counts(pairs: Seq<(String, usize)>) -> int
    decreases pairs.len(),
{
    if pairs.len() == 0 {
        0
    } else {
        sum_counts(pairs.drop_last()) + pairs.last().1
    }
}

/// No node name appears under two pairs.
pub open spec fn keys_distinct(pairs: Seq<(String, usize)>) -> bool {
    forall|i: int, j: int| 0 <= i < j < pairs.len() ==> pairs[i].0@ != pairs[j].0@
}

/// The counts are in non-increasing order.
pub open spec fn counts_sorted(pairs: Seq<(String, usize)>) -> bool {
    forall|i: int, j: int| 0 <= i < j < pairs.len() ==> pairs[i].1 >= pairs[j].1
}

/// Every pair counts exactly the routes of `routes` ending at its node, and
/// counts at least one.
pub open spec fn counts_correct(pairs: Seq<(String, usize)>, routes: Seq<Route>) -> bool {
    forall|i: int|
        0 <= i < pairs.len() ==> (#[trigger] pairs[i]).1 as int == count_routes_ending_at(
            routes,
            pairs[i].0@,
        ) && pairs[i].1 >= 1
}

/// Some pair carries `key`.
pub open spec fn keys_contain(pairs: Seq<(String, usize)>, key: Seq<char>) -> bool {
    exists|i: int| 0 <= i < pairs.len() && pairs[i].0@ == key
}

/// Every finished route's endpoint is carried by some pair.
pub open spec fn all_endpoints_present(pairs: Seq<(String, usize)>, routes: Seq<Route>) -> bool {
    forall|j: int|
        0 <= j < routes.len() && (#[trigger] routes[j]).nodes@.len() > 0 ==> keys_contain(
            pairs,
            route_last_node(routes[j]),
        )
}

/// A count never exceeds the number of routes counted.
proof fn lemma_count_le_len(routes: Seq<Route>, node: Seq<char>)
    ensures
        0 <= count_routes_ending_at(routes, node) <= routes.len(),
    decreases routes.len(),
{
    if routes.len() > 0 {
        lemma_count_le_len(routes.drop_last(), node);
    }
}

/// A positive count names an actual route with that endpoint.
proof fn lemma_count_pos_exists(routes: Seq<Route>, node: Seq<char>) -> (j: int)
    requires
        count_routes_ending_at(routes, node) > 0,
    ensures
        0 <= j < routes.len(),
        routes[j].nodes@.len() > 0,
        route_last_node(routes[j]) == node,
    decreases routes.len(),
{
    if routes.last().nodes@.len() > 0 && route_last_node(routes.last()) == node {
        routes.len() - 1
    } else {
        let j = lemma_count_pos_exists(routes.drop_last(), node);
        assert(routes.drop_last()[j] == routes[j]);
        j
    }
}

/// Replacing one pair changes the sum by the difference of the counts.
proof fn lemma_sum_counts_update(pairs: Seq<(String, usize)>, i: int, v: (String, usize))
    requires
        0 <= i < pairs.len(),
    ensures
        sum_counts(pairs.update(i, v)) == sum_counts(pairs) - pairs[i].1 + v.1,
    decreases pairs.len(),
{
    let upd = pairs.update(i, v);
    if i == pairs.len() - 1 {
        assert(upd.drop_last() =~= pairs.drop_last());
        assert(upd.last() == v);
    } else {
        assert(upd.drop_last() =~= pairs.drop_last().update(i, v));
        assert(upd.last() == pairs.last());
        lemma_sum_counts_update(pairs.drop_last(), i, v);
        assert(pairs.drop_last()[i] == pairs[i]);
    }
}

/// Find the pair that carries `key`, if any.
fn find_key_index(acc: &Vec<(String, usize)>, key: &String) -> (r: Option<usize>)
    ensures
        match r {
            Some(k) => k < acc@.len() && acc@[k as int].0@ == key@,
            None => forall|m: int| 0 <= m < acc@.len() ==> acc@[m].0@ != key@,
        },
{
    let mut k: usize = 0;
    while k < acc.len()
        invariant
            k <= acc@.len(),
            forall|m: int| 0 <= m < k ==> acc@[m].0@ != key@,
        decreases acc@.len() - k,
    {
        if str_eq(acc[k].0.as_str(), key.as_str()) {
            return Some(k);
        }
        k += 1;
    }
    None
}

/// Group the routes by their final node and count each group, then order the
/// pairs by count, largest first: the baseline signal for the most likely
/// receiver. The sum of all counts equals the number of routes with an
/// endpoint, each node's count is exact, and no node appears twice.
pub fn find_end_points(routes: &Vec<Route>) -> (r: Vec<(String, usize)>)
    ensures
        counts_sorted(r@),
        sum_counts(r@) == num_finished_routes(routes@),
        keys_distinct(r@),
        counts_correct(r@, routes@),
        all_endpoints_present(r@, routes@),
{
    let mut acc: Vec<(String, usize)> = Vec::new();
    let mut j: usize = 0;
    while j < routes.len()
        invariant
            j <= routes@.len(),
            keys_distinct(acc@),
            counts_correct(acc@, routes@.subrange(0, j as int)),
            all_endpoints_present(acc@, routes@.subrange(0, j as int)),
            sum_counts(acc@) == num_finished_routes(routes@.subrange(0, j as int)),
        decreases routes@.len() - j,
    {
        let route = &routes[j];
        let ghost prefix = routes@.subrange(0, j as int);
        let ghost prefix1 = routes@.subrange(0, j + 1 as int);
        proof {
            assert(prefix1.drop_last() =~= prefix);
            assert(prefix1.last() == routes@[j as int]);
            assert(forall|jj: int| 0 <= jj < prefix.len() ==> prefix[jj] == prefix1[jj]);
        }
        if route.nodes.len() > 0 {
            let last_node = route.nodes[route.nodes.len() - 1].clone();
            proof {
                assert(route_last_node(routes@[j as int]) == last_node@);
            }
            let found = find_key_index(&acc, &last_node);
            if let Some(k) = found {
                let ghost old_acc = acc@;
                let c = acc[k].1;
                proof {
                    assert(old_acc[k as int].0@ == last_node@);
                    assert(c as int == count_routes_ending_at(prefix, last_node@));
                    lemma_count_le_len(prefix, last_node@);
                }
                let key = acc[k].0.clone();
                acc[k] = (key, c + 1);
                proof {
                    assert(acc@ =~= old_acc.update(k as int, (acc@[k as int].0, (c + 1) as usize)));
                    assert(acc@[k as int].0@ == last_node@);
                    lemma_sum_counts_update(
                        old_acc,
                        k as int,
                        (acc@[k as int].0, (c + 1) as usize),
                    );
                    assert(keys_distinct(acc@)) by {
                        assert forall|p: int, q: int| 0 <= p < q < acc@.len() implies acc@[p].0@
                            != acc@[q].0@ by {
                            assert(acc@[p].0@ == old_acc[p].0@);
                            assert(acc@[q].0@ == old_acc[q].0@);
                        }
                    }
                    assert(counts_correct(acc@, prefix1)) by {
                        assert forall|i: int| 0 <= i < acc@.len() implies (#[trigger] acc@[i]).1
                            as int == count_routes_ending_at(prefix1, acc@[i].0@) && acc@[i].1
                            >= 1 by {
                            if i == k as int {
                                assert(count_routes_ending_at(prefix1, acc@[i].0@)
                                    == count_routes_ending_at(prefix, last_node@) + 1);
                            } else {
                                assert(acc@[i] == old_acc[i]);
                                assert(old_acc[i].0@ != last_node@);
                                assert(count_routes_ending_at(prefix1, acc@[i].0@)
                                    == count_routes_ending_at(prefix, acc@[i].0@));
                            }
                        }
                    }
                    assert(all_endpoints_present(acc@, prefix1)) by {
                        assert forall|jj: int|
                            0 <= jj < prefix1.len() && (#[trigger] prefix1[jj]).nodes@.len()
                                > 0 implies keys_contain(acc@, route_last_node(prefix1[jj])) by {
                            if jj < prefix.len() {
                                let w = choose|w: int|
                                    0 <= w < old_acc.len() && old_acc[w].0@ == route_last_node(
                                        prefix[jj],
                                    );
                                assert(acc@[w].0@ == old_acc[w].0@);
                            } else {
                                assert(acc@[k as int].0@ == route_last_node(prefix1[jj]));
                            }
                        }
                    }
                }
            } else {
                let ghost old_acc = acc@;
                proof {
                    assert(count_routes_ending_at(prefix, last_node@) == 0) by {
                        lemma_count_le_len(prefix, last_node@);
                        if count_routes_ending_at(prefix, last_node@) > 0 {
                            let w = lemma_count_pos_exists(prefix, last_node@);
                            assert(keys_contain(old_acc, route_last_node(prefix[w])));
                            let m = choose|m: int|
                                0 <= m < old_acc.len() && old_acc[m].0@ == route_last_node(
                                    prefix[w],
                                );
                            assert(false);
                        }
                    }
                }
                acc.push((last_node, 1));
                proof {
                    assert(acc@.drop_last() =~= old_acc);
                    assert(acc@.last().0@ == last_node@);
                    assert(keys_distinct(acc@)) by {
                        assert forall|p: int, q: int| 0 <= p < q < acc@.len() implies acc@[p].0@
                            != acc@[q].0@ by {
                            if q < acc@.len() - 1 {
                                assert(acc@[p] == old_acc[p] && acc@[q] == old_acc[q]);
                            } else {
                                assert(acc@[p] == old_acc[p]);
                                assert(old_acc[p].0@ != last_node@);
                            }
                        }
                    }
                    assert(counts_correct(acc@, prefix1)) by {
                        assert forall|i: int| 0 <= i < acc@.len() implies (#[trigger] acc@[i]).1
                            as int == count_routes_ending_at(prefix1, acc@[i].0@) && acc@[i].1
                            >= 1 by {
                            if i < acc@.len() - 1 {
                                assert(acc@[i] == old_acc[i]);
                                assert(old_acc[i].0@ != last_node@);
                                assert(count_routes_ending_at(prefix1, acc@[i].0@)
                                    == count_routes_ending_at(prefix, acc@[i].0@));
                            } else {
                                assert(acc@[i].0@ == last_node@);
                                assert(count_routes_ending_at(prefix1, last_node@)
                                    == count_routes_ending_at(prefix, last_node@) + 1);
                            }
                        }
                    }
                    assert(all_endpoints_present(acc@, prefix1)) by {
                        assert forall|jj: int|
                            0 <= jj < prefix1.len() && (#[trigger] prefix1[jj]).nodes@.len()
                                > 0 implies keys_contain(acc@, route_last_node(prefix1[jj])) by {
                            if jj < prefix.len() {
                                let w = choose|w: int|
                                    0 <= w < old_acc.len() && old_acc[w].0@ == route_last_node(
                                        prefix[jj],
                                    );
                                assert(acc@[w].0@ == old_acc[w].0@);
                            } else {
                                assert(acc@[acc@.len() - 1].0@ == route_last_node(prefix1[jj]));
                            }
                        }
                    }
                }
            }
        }
        j += 1;
    }
    proof {
        assert(routes@.subrange(0, routes@.len() as int) =~= routes@);
    }

    let mut sorted_nodes: Vec<(String, usize)> = Vec::new();
    while acc.len() > 0
        invariant
            counts_sorted(sorted_nodes@),
            sorted_nodes@.len() > 0 ==> forall|m: int|
                0 <= m < acc@.len() ==> acc@[m].1 <= sorted_nodes@[sorted_nodes@.len() - 1].1,
            keys_distinct(sorted_nodes@),
            keys_distinct(acc@),
            forall|i: int, m: int|
                0 <= i < sorted_nodes@.len() && 0 <= m < acc@.len() ==> sorted_nodes@[i].0@
                    != acc@[m].0@,
            counts_correct(sorted_nodes@, routes@),
            counts_correct(acc@, routes@),
            forall|jj: int|
                0 <= jj < routes@.len() && (#[trigger] routes@[jj]).nodes@.len() > 0
                    ==> keys_contain(sorted_nodes@, route_last_node(routes@[jj])) || keys_contain(
                    acc@,
                    route_last_node(routes@[jj]),
                ),
            sum_counts(sorted_nodes@) + sum_counts(acc@) == num_finished_routes(routes@),
        decreases acc@.len(),
    {
        let mut best: usize = 0;
        let mut k2: usize = 1;
        while k2 < acc.len()
            invariant
                acc@.len() > 0,
                best < k2 <= acc@.len(),
                forall|m: int| 0 <= m < k2 ==> acc@[m].1 <= acc@[best as int].1,
            decreases acc@.len() - k2,
        {
            if acc[k2].1 > acc[best].1 {
                best = k2;
            }
            k2 += 1;
        }
        let ghost old_acc = acc@;
        let ghost old_out = sorted_nodes@;
        let p = acc.swap_remove(best);
        proof {
            assert(p == old_acc[best as int]);
            assert(acc@ == old_acc.update(best as int, old_acc.last()).drop_last());
            lemma_sum_counts_update(old_acc, best as int, old_acc.last());
            assert(old_acc.update(best as int, old_acc.last()).last() == old_acc.last());
            assert(old_acc.update(best as int, old_acc.last()).drop_last() == acc@);
            assert(sum_counts(acc@) == sum_counts(old_acc) - p.1);
            assert(forall|m: int| 0 <= m < old_acc.len() ==> old_acc[m].1 <= p.1);
        }
        sorted_nodes.push(p);
        proof {
            assert(sorted_nodes@.drop_last() =~= old_out);
            assert(sorted_nodes@.last() == p);
            // every element of the shrunk pool is one of the old pool's
            assert(forall|m: int|
                0 <= m < acc@.len() ==> acc@[m] == (if m == best as int {
                    old_acc.last()
                } else {
                    old_acc[m]
                }));
            assert(counts_sorted(sorted_nodes@)) by {
                assert forall|i: int, m: int| 0 <= i < m < sorted_nodes@.len() implies
                    sorted_nodes@[i].1 >= sorted_nodes@[m].1 by {
                    if m < sorted_nodes@.len() - 1 {
                        assert(sorted_nodes@[i] == old_out[i] && sorted_nodes@[m] == old_out[m]);
                    } else {
                        assert(sorted_nodes@[m] == p);
                        if old_out.len() > 0 {
                            assert(sorted_nodes@[i] == old_out[i]);
                            if i < old_out.len() - 1 {
                                assert(old_out[i].1 >= old_out[old_out.len() - 1].1);
                            }
                            assert(old_acc[best as int].1 <= old_out[old_out.len() - 1].1);
                        }
                    }
                }
            }
            assert(keys_distinct(sorted_nodes@)) by {
                assert forall|i: int, m: int| 0 <= i < m < sorted_nodes@.len() implies
                    sorted_nodes@[i].0@ != sorted_nodes@[m].0@ by {
                    if m < sorted_nodes@.len() - 1 {
                        assert(sorted_nodes@[i] == old_out[i] && sorted_nodes@[m] == old_out[m]);
                    } else {
                        assert(sorted_nodes@[i] == old_out[i]);
                        assert(sorted_nodes@[m] == old_acc[best as int]);
                    }
                }
            }
            assert(keys_distinct(acc@)) by {
                assert forall|i: int, m: int| 0 <= i < m < acc@.len() implies acc@[i].0@
                    != acc@[m].0@ by {
                    let oi: int = if i == best as int {
                        old_acc.len() - 1
                    } else {
                        i
                    };
                    let om: int = if m == best as int {
                        old_acc.len() - 1
                    } else {
                        m
                    };
                    assert(acc@[i] == old_acc[oi] && acc@[m] == old_acc[om]);
                    assert(oi != om);
                }
            }
            assert forall|jj: int|
                0 <= jj < routes@.len() && (#[trigger] routes@[jj]).nodes@.len() > 0 implies
                keys_contain(sorted_nodes@, route_last_node(routes@[jj])) || keys_contain(
                acc@,
                route_last_node(routes@[jj]),
            ) by {
                let e = route_last_node(routes@[jj]);
                if keys_contain(old_out, e) {
                    let w = choose|w: int| 0 <= w < old_out.len() && old_out[w].0@ == e;
                    assert(sorted_nodes@[w].0@ == e);
                } else {
                    let w = choose|w: int| 0 <= w < old_acc.len() && old_acc[w].0@ == e;
                    if w == best as int {
                        assert(sorted_nodes@[sorted_nodes@.len() - 1].0@ == e);
                    } else if w == old_acc.len() - 1 {
                        assert(acc@[best as int].0@ == e);
                    } else {
                        assert(acc@[w].0@ == e);
                    }
                }
            }
        }
    }
    sorted_nodes
}

} // verus!
