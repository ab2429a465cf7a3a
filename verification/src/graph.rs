//! The public channel graph and the advertised blinded-path descriptor.
//!
//! Passive data holders: nodes, channels and per-direction forwarding
//! policies, plus the aggregated cost envelope advertised for a blinded
//! path. The values are immutable inputs to the enumeration engine; loading
//! them from persisted documents is the caller's concern.

use vstd::prelude::*;

verus! {

/// A network address advertised by a node.
pub struct Address {
    pub network: String,
    pub addr: String,
}

/// Mathematical model of an [`Address`].
pub ghost struct AddressView {
    pub network: Seq<char>,
    pub addr: Seq<char>,
}

impl View for Address {
    type V = AddressView;

    open spec fn view(&self) -> AddressView {
        AddressView { network: self.network@, addr: self.addr@ }
    }
}

/// A participant of the network, named by its public key.
pub struct Node {
    pub last_update: i64,
    pub pub_key: String,
    pub alias: String,
    pub addresses: Vec<Address>,
    pub color: String,
}

/// Mathematical model of a [`Node`].
pub ghost struct NodeView {
    pub last_update: int,
    pub pub_key: Seq<char>,
    pub alias: Seq<char>,
    pub addresses: Seq<AddressView>,
    pub color: Seq<char>,
}

impl View for Node {
    type V = NodeView;

    open spec fn view(&self) -> NodeView {
        NodeView {
            last_update: self.last_update as int,
            pub_key: self.pub_key@,
            alias: self.alias@,
            addresses: self.addresses@.map_values(|a: Address| a@),
            color: self.color@,
        }
    }
}

/// Per-direction forwarding cost parameters of a channel. The three fee
/// fields are decimal string literals that still require parsing.
pub struct NodePolicy {
    pub time_lock_delta: u32,
    pub min_htlc: String,
    pub fee_base_msat: String,
    pub fee_rate_milli_msat: String,
    pub disabled: bool,
    pub max_htlc_msat: String,
    pub last_update: u64,
}

/// Mathematical model of a [`NodePolicy`].
pub ghost struct NodePolicyView {
    pub time_lock_delta: nat,
    pub min_htlc: Seq<char>,
    pub fee_base_msat: Seq<char>,
    pub fee_rate_milli_msat: Seq<char>,
    pub disabled: bool,
    pub max_htlc_msat: Seq<char>,
    pub last_update: nat,
}

impl View for NodePolicy {
    type V = NodePolicyView;

    open spec fn view(&self) -> NodePolicyView {
        NodePolicyView {
            time_lock_delta: self.time_lock_delta as nat,
            min_htlc: self.min_htlc@,
            fee_base_msat: self.fee_base_msat@,
            fee_rate_milli_msat: self.fee_rate_milli_msat@,
            disabled: self.disabled,
            max_htlc_msat: self.max_htlc_msat@,
            last_update: self.last_update as nat,
        }
    }
}

impl Clone for NodePolicy {
    fn clone(&self) -> (r: Self)
        ensures
            r@ == self@,
    {
        NodePolicy {
            time_lock_delta: self.time_lock_delta,
            min_htlc: self.min_htlc.clone(),
            fee_base_msat: self.fee_base_msat.clone(),
            fee_rate_milli_msat: self.fee_rate_milli_msat.clone(),
            disabled: self.disabled,
            max_htlc_msat: self.max_htlc_msat.clone(),
            last_update: self.last_update,
        }
    }
}

/// A channel between two nodes, with one forwarding policy per direction.
pub struct Edge {
    pub channel_id: String,
    pub chan_point: String,
    pub last_update: i64,
    pub node1_pub: String,
    pub node2_pub: String,
    pub capacity: String,
    pub node1_policy: NodePolicy,
    pub node2_policy: NodePolicy,
}

/// Mathematical model of an [`Edge`].
pub ghost struct EdgeView {
    pub channel_id: Seq<char>,
    pub chan_point: Seq<char>,
    pub last_update: int,
    pub node1_pub: Seq<char>,
    pub node2_pub: Seq<char>,
    pub capacity: Seq<char>,
    pub node1_policy: NodePolicyView,
    pub node2_policy: NodePolicyView,
}

impl View for Edge {
    type V = EdgeView;

    open spec fn view(&self) -> EdgeView {
        EdgeView {
            channel_id: self.channel_id@,
            chan_point: self.chan_point@,
            last_update: self.last_update as int,
            node1_pub: self.node1_pub@,
            node2_pub: self.node2_pub@,
            capacity: self.capacity@,
            node1_policy: self.node1_policy@,
            node2_policy: self.node2_policy@,
        }
    }
}

/// The public graph: an ordered collection of nodes and of channels.
pub struct ChannelGraph {
    pub nodes: Vec<Node>,
    pub edges: Vec<Edge>,
}

/// Mathematical model of a [`ChannelGraph`].
pub ghost struct ChannelGraphView {
    pub nodes: Seq<NodeView>,
    pub edges: Seq<EdgeView>,
}

impl View for ChannelGraph {
    type V = ChannelGraphView;

    open spec fn view(&self) -> ChannelGraphView {
        ChannelGraphView {
            nodes: self.nodes@.map_values(|n: Node| n@),
            edges: self.edges@.map_values(|e: Edge| e@),
        }
    }
}

/// The advertised blinded-path descriptor: an introduction node, the count of
/// blinded placeholders behind it, and the aggregated cost fields the search
/// and scoring try to match.
pub struct BlindedPath {
    pub introduction_node: String,
    pub blinded_nodes: Vec<String>,
    pub fee_base_msat: u64,
    pub fee_proportional_millionths: u64,
    pub htlc_minimum_msat: u64,
    pub cltv_expiry_delta: u32,
    pub max_cltv_expiry: u32,
}

/// Mathematical model of a [`BlindedPath`].
pub ghost struct BlindedPathView {
    pub introduction_node: Seq<char>,
    pub blinded_nodes: Seq<Seq<char>>,
    pub fee_base_msat: nat,
    pub fee_proportional_millionths: nat,
    pub htlc_minimum_msat: nat,
    pub cltv_expiry_delta: nat,
    pub max_cltv_expiry: nat,
}

impl View for BlindedPath {
    type V = BlindedPathView;

    open spec fn view(&self) -> BlindedPathView {
        BlindedPathView {
            introduction_node: self.introduction_node@,
            blinded_nodes: self.blinded_nodes@.map_values(|s: String| s@),
            fee_base_msat: self.fee_base_msat as nat,
            fee_proportional_millionths: self.fee_proportional_millionths as nat,
            htlc_minimum_msat: self.htlc_minimum_msat as nat,
            cltv_expiry_delta: self.cltv_expiry_delta as nat,
            max_cltv_expiry: self.max_cltv_expiry as nat,
        }
    }
}

} // verus!
