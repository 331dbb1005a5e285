//! Node kinds, names, hostnames and the per-node connection table.

use vstd::prelude::*;
use vstd::string::StrSliceExecFns;
use vstd::string::StringExecFns;

pub mod client;
pub mod database;
pub mod server;

verus! {

/// Marker for entities that take part in the simulation.
pub struct SystemNode;

/// The three node kinds.
#[derive(Clone, Copy, Debug, PartialEq, Eq, Structural)]
pub enum NodeType {
    Client,
    Server,
    Database,
}

/// Which node-type pairs may be wired together: clients reach servers,
/// servers reach everything, databases reach servers.
pub open spec fn spec_valid_connection(a: NodeType, b: NodeType) -> bool {
    match a {
        NodeType::Client => b is Server,
        NodeType::Server => true,
        NodeType::Database => b is Server,
    }
}

impl NodeType {
    /// The lower-case name of the kind.
    pub open spec fn spec_lower_name(self) -> Seq<char> {
        match self {
            NodeType::Client => "client"@,
            NodeType::Server => "server"@,
            NodeType::Database => "database"@,
        }
    }

    /// The path of the node's display texture.
    pub fn get_texture_path(&self) -> (r: String)
        ensures
            r@ == "textures/system_components/"@ + self.spec_lower_name() + ".png"@,
    {
        let mut out = String::from_str("textures/system_components/");
        match self {
            NodeType::Client => out.append("client"),
            NodeType::Server => out.append("server"),
            NodeType::Database => out.append("database"),
        }
        out.append(".png");
        out
    }

    /// Whether a connection between these node types is allowed.
    pub fn is_valid_connection(&self, other: &Self) -> (r: bool)
        ensures
            r == spec_valid_connection(*self, *other),
    {
        match self {
            NodeType::Client => matches!(other, NodeType::Server),
            NodeType::Server => true,
            NodeType::Database => matches!(other, NodeType::Server),
        }
    }
}

/// A node's display name.
#[derive(Debug)]
pub struct NodeName(pub String);

impl NodeName {
    pub fn new() -> (r: Self)
        ensures
            r.0@ == Seq::<char>::empty(),
    {
        NodeName(String::new())
    }
}

/// The address under which a server or database node can be reached.
#[derive(Debug)]
pub struct Hostname(pub String);

impl Hostname {
    /// A hostname must not be empty.
    pub fn is_valid(&self) -> (r: bool)
        ensures
            r == (self.0@.len() > 0),
    {
        !self.0.as_str().is_empty()
    }
}

/// Authoring-time client settings kept as plain text.
#[derive(Clone, Debug)]
pub struct ClientImpl {
    pub config: String,
}

impl ClientImpl {
    pub fn new() -> (r: Self)
        ensures
            r.config@ == Seq::<char>::empty(),
    {
        ClientImpl { config: String::new() }
    }
}

/// Whether `s` records a connection to `other`.
pub open spec fn spec_connected(s: Seq<(u64, u64)>, other: u64) -> bool {
    exists|k: int| 0 <= k < s.len() && s[k].0 == other
}

/// One node's connections: for every connected node, the identifier of the
/// line artifact that displays the connection.
#[derive(Debug)]
pub struct NodeConnections {
    connections: Vec<(u64, u64)>,
}

impl View for NodeConnections {
    type V = Seq<(u64, u64)>;

    closed spec fn view(&self) -> Seq<(u64, u64)> {
        self.connections@
    }
}

/// Every connected node appears once in a connection table.
pub open spec fn conns_wf(s: Seq<(u64, u64)>) -> bool {
    forall|j: int, k: int| 0 <= j < k < s.len() ==> s[j].0 != s[k].0
}

/// The position of the entry for `other`.
pub open spec fn conns_index(s: Seq<(u64, u64)>, other: u64) -> Option<int>
    decreases s.len(),
{
    if s.len() == 0 {
        None
    } else if s[0].0 == other {
        Some(0int)
    } else {
        match conns_index(s.subrange(1, s.len() as int), other) {
            Some(i) => Some(i + 1),
            None => None,
        }
    }
}

/// The line artifact recorded for the connection to `other`, if any.
pub open spec fn conns_line(s: Seq<(u64, u64)>, other: u64) -> Option<u64> {
    match conns_index(s, other) {
        Some(i) => Some(s[i].1),
        None => None,
    }
}

/// Removing the entry for `other`: the found entry swaps with the last
/// one, which is then dropped; without an entry nothing changes.
pub open spec fn conns_delete(s: Seq<(u64, u64)>, other: u64) -> Seq<(u64, u64)> {
    match conns_index(s, other) {
        Some(i) => s.update(i, s.last()).drop_last(),
        None => s,
    }
}

/// What `conns_index` says, member by member.
pub proof fn lemma_conns_index(s: Seq<(u64, u64)>, other: u64)
    ensures
        match conns_index(s, other) {
            Some(i) => 0 <= i < s.len() && s[i].0 == other && forall|j: int|
                0 <= j < i ==> s[j].0 != other,
            None => forall|j: int| 0 <= j < s.len() ==> s[j].0 != other,
        },
    decreases s.len(),
{
    if s.len() > 0 && s[0].0 != other {
        let sub = s.subrange(1, s.len() as int);
        lemma_conns_index(sub, other);
        assert forall|j: int| 1 <= j < s.len() implies sub[j - 1] == s[j] by {}
    }
}

/// `conns_index` from its characterization.
pub proof fn lemma_conns_index_value(s: Seq<(u64, u64)>, other: u64, k: int)
    requires
        0 <= k < s.len(),
        s[k].0 == other,
        forall|j: int| 0 <= j < k ==> s[j].0 != other,
    ensures
        conns_index(s, other) == Some(k),
    decreases s.len(),
{
    if k > 0 {
        let sub = s.subrange(1, s.len() as int);
        assert(sub[k - 1] == s[k]);
        assert forall|j: int| 0 <= j < k - 1 implies sub[j].0 != other by {
            assert(sub[j] == s[j + 1]);
        }
        lemma_conns_index_value(sub, other, k - 1);
    }
}

/// `conns_index` is `None` when no entry has the key.
pub proof fn lemma_conns_index_none(s: Seq<(u64, u64)>, other: u64)
    requires
        forall|j: int| 0 <= j < s.len() ==> s[j].0 != other,
    ensures
        conns_index(s, other) is None,
    decreases s.len(),
{
    if s.len() > 0 {
        let sub = s.subrange(1, s.len() as int);
        assert forall|j: int| 0 <= j < sub.len() implies sub[j].0 != other by {
            assert(sub[j] == s[j + 1]);
        }
        lemma_conns_index_none(sub, other);
    }
}

/// Under unique keys, deleting one entry leaves every other key's line
/// untouched.
pub proof fn lemma_conns_delete_line(s: Seq<(u64, u64)>, other: u64, x: u64)
    requires
        conns_wf(s),
        x != other,
    ensures
        conns_line(conns_delete(s, other), x) == conns_line(s, x),
{
    lemma_conns_index(s, other);
    lemma_conns_index(s, x);
    match conns_index(s, other) {
        Some(i) => {
            let nd = s.update(i, s.last()).drop_last();
            match conns_index(s, x) {
                Some(k) => {
                    assert(k != i);
                    if k == s.len() - 1 {
                        assert(nd[i] == s[k]);
                        assert forall|j: int| 0 <= j < i implies nd[j].0 != x by {
                            assert(nd[j] == s[j]);
                        }
                        lemma_conns_index_value(nd, x, i);
                    } else {
                        assert(nd[k] == s[k]);
                        assert forall|j: int| 0 <= j < k implies nd[j].0 != x by {
                            if j == i {
                                assert(nd[j] == s[s.len() - 1]);
                            } else {
                                assert(nd[j] == s[j]);
                            }
                        }
                        lemma_conns_index_value(nd, x, k);
                    }
                },
                None => {
                    assert forall|j: int| 0 <= j < nd.len() implies nd[j].0 != x by {
                        if j == i {
                            assert(nd[j] == s[s.len() - 1]);
                        } else {
                            assert(nd[j] == s[j]);
                        }
                    }
                    lemma_conns_index_none(nd, x);
                },
            }
        },
        None => {},
    }
}

impl NodeConnections {
    /// Every connected node appears once.
    pub open spec fn wf(self) -> bool {
        conns_wf(self@)
    }

    pub fn new() -> (r: Self)
        ensures
            r@ == Seq::<(u64, u64)>::empty(),
            r.wf(),
    {
        NodeConnections { connections: Vec::new() }
    }

    /// Whether this node is connected to `other_node`.
    pub fn is_connected_to(&self, other_node: u64) -> (r: bool)
        ensures
            r == spec_connected(self@, other_node),
    {
        let mut i: usize = 0;
        while i < self.connections.len()
            invariant
                i <= self@.len(),
                forall|k: int| 0 <= k < i ==> self@[k].0 != other_node,
            decreases self@.len() - i,
        {
            if self.connections[i].0 == other_node {
                return true;
            }
            i = i + 1;
        }
        false
    }

    /// Records a connection to `other_node` displayed by `line`; replaces
    /// the line of an existing connection to the same node.  Every other
    /// entry, its line artifact included, is kept.
    pub fn add_connection(&mut self, other_node: u64, line: u64)
        requires
            old(self).wf(),
        ensures
            final(self).wf(),
            final(self)@ == conns_delete(old(self)@, other_node).push((other_node, line)),
            spec_connected(final(self)@, other_node),
            conns_line(final(self)@, other_node) == Some(line),
            forall|x: u64|
                spec_connected(final(self)@, x) == (x == other_node || spec_connected(
                    old(self)@,
                    x,
                )),
            forall|x: u64|
                x != other_node ==> conns_line(final(self)@, x) == conns_line(old(self)@, x),
    {
        proof {
            lemma_conns_index(old(self)@, other_node);
        }
        self.remove_connection(other_node);
        let ghost mid = self@;
        self.connections.push((other_node, line));
        proof {
            assert(final(self)@ == mid.push((other_node, line)));
            assert forall|j: int| 0 <= j < mid.len() implies mid[j].0 != other_node by {
                assert(!spec_connected(mid, other_node));
            }
            assert(final(self)@[mid.len() as int].0 == other_node);
            lemma_conns_index_value(final(self)@, other_node, mid.len() as int);
            assert(conns_line(final(self)@, other_node) == Some(line));
            assert forall|x: u64|
                x != other_node implies conns_line(final(self)@, x) == conns_line(
                old(self)@,
                x,
            ) by {
                lemma_conns_index(mid, x);
                match conns_index(mid, x) {
                    Some(k) => {
                        assert(final(self)@[k] == mid[k]);
                        assert forall|j: int| 0 <= j < k implies final(self)@[j].0 != x by {
                            assert(final(self)@[j] == mid[j]);
                        }
                        lemma_conns_index_value(final(self)@, x, k);
                    },
                    None => {
                        assert forall|j: int|
                            0 <= j < final(self)@.len() implies final(self)@[j].0 != x by {
                            if j < mid.len() {
                                assert(final(self)@[j] == mid[j]);
                            }
                        }
                        lemma_conns_index_none(final(self)@, x);
                    },
                }
                lemma_conns_delete_line(old(self)@, other_node, x);
            }
            assert forall|j: int, k: int|
                0 <= j < k < final(self)@.len() implies final(self)@[j].0
                != final(self)@[k].0 by {
                if k == final(self)@.len() - 1 {
                    assert(!spec_connected(mid, other_node));
                    assert(final(self)@[j] == mid[j]);
                }
            }
            assert forall|x: u64|
                spec_connected(final(self)@, x) == (x == other_node || spec_connected(
                    old(self)@,
                    x,
                )) by {
                if spec_connected(final(self)@, x) {
                    let k = choose|k: int|
                        0 <= k < final(self)@.len() && final(self)@[k].0 == x;
                    if k < final(self)@.len() - 1 {
                        assert(mid[k].0 == x);
                        assert(spec_connected(mid, x));
                    }
                }
                if x == other_node {
                    assert(final(self)@[final(self)@.len() - 1].0 == x);
                } else if spec_connected(old(self)@, x) {
                    let k = choose|k: int| 0 <= k < mid.len() && mid[k].0 == x;
                    assert(final(self)@[k].0 == x);
                }
            }
        }
    }

    /// Removes the connection to `other_node`, if any; every other entry,
    /// its line artifact included, is kept.
    pub fn remove_connection(&mut self, other_node: u64)
        requires
            old(self).wf(),
        ensures
            final(self).wf(),
            final(self)@ == conns_delete(old(self)@, other_node),
            forall|x: u64|
                spec_connected(final(self)@, x) == (x != other_node && spec_connected(
                    old(self)@,
                    x,
                )),
            forall|x: u64|
                x != other_node ==> conns_line(final(self)@, x) == conns_line(old(self)@, x),
    {
        let mut i: usize = 0;
        while i < self.connections.len()
            invariant
                old(self).wf(),
                self@ == old(self)@,
                i <= self@.len(),
                forall|k: int| 0 <= k < i ==> self@[k].0 != other_node,
            decreases self@.len() - i,
        {
            if self.connections[i].0 == other_node {
                let ghost oldseq = self@;
                let ghost ii = i as int;
                let ghost lastpos = oldseq.len() - 1;
                proof {
                    lemma_conns_index_value(oldseq, other_node, ii);
                }
                self.connections.swap_remove(i);
                proof {
                    let newseq = final(self)@;
                    assert(newseq == oldseq.update(ii, oldseq.last()).drop_last());
                    assert(newseq == conns_delete(old(self)@, other_node));
                    assert forall|x: u64|
                        x != other_node implies conns_line(final(self)@, x) == conns_line(
                        old(self)@,
                        x,
                    ) by {
                        lemma_conns_delete_line(old(self)@, other_node, x);
                    }
                    assert(newseq.len() == oldseq.len() - 1);
                    assert forall|k: int|
                        0 <= k < newseq.len() implies newseq[k] == oldseq[
                        if k == ii {
                            lastpos
                        } else {
                            k
                        }
                    ] by {}
                    assert forall|j: int, k: int|
                        0 <= j < k < newseq.len() implies newseq[j].0 != newseq[k].0 by {
                        let a = if j == ii {
                            lastpos
                        } else {
                            j
                        };
                        let b = if k == ii {
                            lastpos
                        } else {
                            k
                        };
                        if a < b {
                            assert(oldseq[a].0 != oldseq[b].0);
                        } else {
                            assert(oldseq[b].0 != oldseq[a].0);
                        }
                    }
                    assert forall|x: u64|
                        spec_connected(newseq, x) == (x != other_node && spec_connected(
                            oldseq,
                            x,
                        )) by {
                        if spec_connected(newseq, x) {
                            let k = choose|k: int| 0 <= k < newseq.len() && newseq[k].0 == x;
                            if k == ii {
                                assert(oldseq[lastpos].0 == x);
                            } else {
                                assert(oldseq[k].0 == x);
                            }
                            if x == other_node {
                                let p: int = if k == ii {
                                    lastpos
                                } else {
                                    k
                                };
                                if p < ii {
                                    assert(oldseq[p].0 != other_node);
                                } else if p > ii {
                                    assert(oldseq[ii].0 != oldseq[p].0);
                                }
                            }
                        }
                        if x != other_node && spec_connected(oldseq, x) {
                            let k = choose|k: int| 0 <= k < oldseq.len() && oldseq[k].0 == x;
                            assert(k != ii);
                            if k < newseq.len() {
                                assert(newseq[k].0 == x);
                            } else {
                                assert(k == lastpos);
                                assert(newseq[ii].0 == x);
                            }
                        }
                    }
                }
                return ;
            }
            i = i + 1;
        }
        proof {
            lemma_conns_index_none(old(self)@, other_node);
        }
    }

    /// The connection entries, each a connected node with its line artifact.
    pub fn iter(&self) -> (r: &Vec<(u64, u64)>)
        ensures
            r@ == self@,
    {
        &self.connections
    }

    /// The line artifacts of all connections.
    pub fn line_entities(&self) -> (r: Vec<u64>)
        ensures
            r@.len() == self@.len(),
            forall|k: int| 0 <= k < self@.len() ==> r@[k] == self@[k].1,
    {
        let mut out: Vec<u64> = Vec::new();
        let mut i: usize = 0;
        while i < self.connections.len()
            invariant
                i <= self@.len(),
                out@.len() == i,
                forall|k: int| 0 <= k < i ==> out@[k] == self@[k].1,
            decreases self@.len() - i,
        {
            out.push(self.connections[i].1);
            i = i + 1;
        }
        out
    }
}

} // verus!
