//! The path-segment tree of one hour, its construction from leaves and its
//! flattening into output rows.

use crate::method::{Method, METHOD_COUNT};
use crate::metrics::{Metrics, Sample};
use crate::path::{split_path, split_segments, texts, RESOURCE_DELIMITER};
use crate::request::NormalizedRequest;
use vstd::prelude::*;

verus! {

/// Paths with more segments than this are left out of the tree.
pub const MAX_PATH_DEPTH: usize = 15;

/// Two optional summaries taken together: an absent side is the identity.
pub open spec fn merge_slot(a: Option<Metrics>, b: Option<Metrics>) -> Option<Metrics> {
    match (a, b) {
        (None, _) => b,
        (_, None) => a,
        (Some(x), Some(y)) => Some(x.spec_merge(y)),
    }
}

/// Merges two optional summaries.
pub fn merge_entries(a: Option<Metrics>, b: Option<Metrics>) -> (r: Option<Metrics>)
    ensures
        r == merge_slot(a, b),
{
    match a {
        None => b,
        Some(x) => match b {
            None => a,
            Some(y) => {
                let mut both = x;
                both.increment_with_metric(&y);
                Some(both)
            },
        },
    }
}

/// A per-method table without entries.
pub open spec fn empty_table() -> Seq<Option<Metrics>> {
    Seq::new(METHOD_COUNT as nat, |i: int| None::<Metrics>)
}

/// Two per-method tables merged entry by entry.
pub open spec fn merge_tables(a: Seq<Option<Metrics>>, b: Seq<Option<Metrics>>) -> Seq<
    Option<Metrics>,
> {
    Seq::new(METHOD_COUNT as nat, |i: int| merge_slot(a[i], b[i]))
}

/// The per-method breakdown of a node: one optional summary per method,
/// at the method's index.
#[derive(Debug)]
pub struct MethodTable {
    pub slots: Vec<Option<Metrics>>,
}

impl MethodTable {
    pub open spec fn view(&self) -> Seq<Option<Metrics>> {
        self.slots@
    }

    pub open spec fn wf(&self) -> bool {
        self.slots@.len() == METHOD_COUNT
    }

    /// A table without entries.
    pub fn new() -> (t: MethodTable)
        ensures
            t.wf(),
            t@ == empty_table(),
    {
        let mut slots: Vec<Option<Metrics>> = Vec::new();
        let mut i: usize = 0;
        while i < METHOD_COUNT
            invariant
                i <= METHOD_COUNT,
                slots@.len() == i,
                forall|j: int| 0 <= j < i ==> slots@[j] == None::<Metrics>,
            decreases METHOD_COUNT - i,
        {
            slots.push(None);
            i = i + 1;
        }
        proof {
            assert(slots@ =~= empty_table());
        }
        MethodTable { slots }
    }

    /// Whether the table has one slot per method.
    pub fn is_well_formed(&self) -> (b: bool)
        ensures
            b == self.wf(),
    {
        self.slots.len() == METHOD_COUNT
    }

    /// The summary held for a method, if any.
    pub fn get(&self, method: Method) -> (m: Option<Metrics>)
        requires
            self.wf(),
        ensures
            m == self@[method.spec_index()],
    {
        self.slots[method.index()]
    }

    /// Counts one request under its method.
    pub fn record(&mut self, method: Method, sample: &Sample)
        requires
            old(self).wf(),
        ensures
            final(self).wf(),
            final(self)@ == old(self)@.update(
                method.spec_index(),
                merge_slot(old(self)@[method.spec_index()], Some(Metrics::spec_single(*sample))),
            ),
    {
        let i = method.index();
        let one = Metrics::default_with_request(sample);
        let updated = merge_entries(self.slots[i], Some(one));
        self.slots.set(i, updated);
    }

    /// Merges another table into this one, entry by entry.
    pub fn merge(&mut self, other: &MethodTable)
        requires
            old(self).wf(),
            other.wf(),
        ensures
            final(self).wf(),
            final(self)@ == merge_tables(old(self)@, other@),
    {
        let ghost before = self@;
        let mut i: usize = 0;
        while i < METHOD_COUNT
            invariant
                i <= METHOD_COUNT,
                self.slots@.len() == METHOD_COUNT,
                before.len() == METHOD_COUNT,
                other.slots@.len() == METHOD_COUNT,
                forall|j: int|
                    0 <= j < i ==> #[trigger] self.slots@[j] == merge_slot(before[j], other.slots@[j]),
                forall|j: int| i <= j < METHOD_COUNT ==> #[trigger] self.slots@[j] == before[j],
            decreases METHOD_COUNT - i,
        {
            let merged = merge_entries(self.slots[i], other.slots[i]);
            self.slots.set(i, merged);
            i = i + 1;
        }
        proof {
            assert(self@ =~= merge_tables(old(self)@, other@));
        }
    }
}

/// One output row: the figures of one node of one hour, in total or for
/// one method. Bytes are whole bytes and durations whole milliseconds.
#[derive(Debug, PartialEq, Eq)]
pub struct ServerStatistic {
    pub access_timestamp: String,
    pub http_method: Option<String>,
    pub path: String,
    pub count: u64,
    pub bytes_sent: u64,
    pub total_duration: u64,
    pub min_duration: u64,
    pub max_duration: u64,
    pub errors: u64,
}

/// What a row says.
pub ghost struct StatisticView {
    pub access_timestamp: Seq<char>,
    pub http_method: Option<Seq<char>>,
    pub path: Seq<char>,
    pub count: u64,
    pub bytes_sent: u64,
    pub total_duration: u64,
    pub min_duration: u64,
    pub max_duration: u64,
    pub errors: u64,
}

impl ServerStatistic {
    pub open spec fn view(&self) -> StatisticView {
        StatisticView {
            access_timestamp: self.access_timestamp@,
            http_method: match self.http_method {
                Some(m) => Some(m@),
                None => None,
            },
            path: self.path@,
            count: self.count,
            bytes_sent: self.bytes_sent,
            total_duration: self.total_duration,
            min_duration: self.min_duration,
            max_duration: self.max_duration,
            errors: self.errors,
        }
    }
}

/// What a sequence of rows says.
pub open spec fn row_views(rows: Seq<ServerStatistic>) -> Seq<StatisticView> {
    Seq::new(rows.len(), |i: int| rows[i]@)
}

/// The row of a summary that has both duration bounds.
pub open spec fn row_of(
    hour: Seq<char>,
    method: Option<Seq<char>>,
    path: Seq<char>,
    m: Metrics,
) -> StatisticView {
    StatisticView {
        access_timestamp: hour,
        http_method: method,
        path,
        count: m.count,
        bytes_sent: m.bytes,
        total_duration: m.duration_sum,
        min_duration: m.min_duration->0,
        max_duration: m.max_duration->0,
        errors: m.errors,
    }
}

/// The rows of the first `upto` entries of a per-method table: one for
/// each entry that is present and has both duration bounds.
pub open spec fn method_rows(
    hour: Seq<char>,
    path: Seq<char>,
    table: Seq<Option<Metrics>>,
    upto: int,
) -> Seq<StatisticView>
    decreases upto,
{
    if upto <= 0 {
        Seq::empty()
    } else {
        let rest = method_rows(hour, path, table, upto - 1);
        match table[upto - 1] {
            Some(m) => if m.spec_observed() {
                rest.push(row_of(hour, Some(Method::spec_at(upto - 1).spec_name()), path, m))
            } else {
                rest
            },
            None => rest,
        }
    }
}

/// What a node is: its key among its siblings, its full path, its
/// summaries and its children.
pub ghost struct NodeView {
    pub segment: Seq<char>,
    pub path: Seq<char>,
    pub total: Metrics,
    pub per_method: Seq<Option<Metrics>>,
    pub children: Seq<NodeView>,
}

/// Index of the first node from `from` on that is keyed by `segment`; the
/// number of nodes if there is none.
pub open spec fn position_from(nodes: Seq<NodeView>, segment: Seq<char>, from: int) -> int
    decreases nodes.len() - from,
{
    if from < 0 || from >= nodes.len() {
        nodes.len() as int
    } else if nodes[from].segment == segment {
        from
    } else {
        position_from(nodes, segment, from + 1)
    }
}

impl NodeView {
    /// Every per-method table in the tree has one slot per method, and no
    /// two siblings are keyed by the same segment.
    pub open spec fn wf(self) -> bool
        decreases self,
    {
        &&& self.per_method.len() == METHOD_COUNT
        &&& distinct_segments(self.children)
        &&& forall|i: int| 0 <= i < self.children.len() ==> (#[trigger] self.children[i]).wf()
    }

    /// Index of the child keyed by `segment`, or the number of children.
    pub open spec fn child_index(self, segment: Seq<char>) -> int {
        position_from(self.children, segment, 0)
    }

    /// The node that a chain of segments leads to from this node, if there
    /// is one: each segment picks the child keyed by it.
    pub open spec fn descendant(self, segments: Seq<Seq<char>>) -> Option<NodeView>
        decreases segments.len(),
    {
        if segments.len() == 0 {
            Some(self)
        } else {
            let k = self.child_index(segments[0]);
            if k < self.children.len() {
                self.children[k].descendant(segments.drop_first())
            } else {
                None
            }
        }
    }

    /// The node with another summary merged into its total.
    pub open spec fn with_total(self, total: Metrics) -> NodeView {
        NodeView { total: self.total.spec_merge(total), ..self }
    }

    /// A node that has just been created for a leaf's contribution.
    pub open spec fn fresh(segment: Seq<char>, path: Seq<char>, total: Metrics) -> NodeView {
        NodeView { segment, path, total, per_method: empty_table(), children: Seq::empty() }
    }

    /// The tree of an hour before anything was inserted: a root at `/`.
    pub open spec fn root() -> NodeView {
        NodeView::fresh(Seq::empty(), seq![RESOURCE_DELIMITER], Metrics::spec_empty())
    }

    /// The node after one request of a given method was counted at it, in
    /// its total and in its per-method table.
    pub open spec fn counted(self, method: Method, sample: Sample) -> NodeView {
        NodeView {
            total: self.total.spec_increment(sample),
            per_method: self.per_method.update(
                method.spec_index(),
                merge_slot(
                    self.per_method[method.spec_index()],
                    Some(Metrics::spec_single(sample)),
                ),
            ),
            ..self
        }
    }

    /// The leaf that the first request of a path makes.
    pub open spec fn leaf_started(path: Seq<char>, method: Method, sample: Sample) -> NodeView {
        NodeView::fresh(Seq::empty(), path, Metrics::spec_empty()).counted(method, sample)
    }

    /// The node after a leaf's contribution went down the chain of
    /// `segments` below it: each node on the chain is reused, with the
    /// leaf's total merged into its own, or created with the leaf's total;
    /// the last one also takes the leaf's per-method table. `prefix` is the
    /// path that the chain starts from.
    pub open spec fn chain_merged(
        self,
        segments: Seq<Seq<char>>,
        prefix: Seq<char>,
        total: Metrics,
        methods: Seq<Option<Metrics>>,
    ) -> NodeView
        decreases segments.len(),
    {
        if segments.len() == 0 {
            NodeView { per_method: merge_tables(self.per_method, methods), ..self }
        } else {
            let segment = segments[0];
            let path = prefix.push(RESOURCE_DELIMITER) + segment;
            let k = self.child_index(segment);
            let child = if k < self.children.len() {
                self.children[k].with_total(total)
            } else {
                NodeView::fresh(segment, path, total)
            };
            let grown = child.chain_merged(segments.drop_first(), path, total, methods);
            if k < self.children.len() {
                NodeView { children: self.children.update(k, grown), ..self }
            } else {
                NodeView { children: self.children.push(grown), ..self }
            }
        }
    }

    /// The tree after one leaf was inserted at its root. A leaf whose path
    /// has fewer than two segments, or more than `MAX_PATH_DEPTH`, changes
    /// nothing. One of exactly two segments is merged into the root alone,
    /// total and per-method table. Any other is merged into the root's
    /// total and goes down the chain of its segments.
    pub open spec fn inserted(self, leaf: NodeView) -> NodeView {
        let segments = split_segments(leaf.path);
        if segments.len() <= 1 || segments.len() > MAX_PATH_DEPTH {
            self
        } else if segments.len() == 2 {
            NodeView {
                per_method: merge_tables(self.per_method, leaf.per_method),
                ..self.with_total(leaf.total)
            }
        } else {
            self.with_total(leaf.total).chain_merged(
                segments.drop_first(),
                Seq::empty(),
                leaf.total,
                leaf.per_method,
            )
        }
    }

    /// The rows of the node itself: one for its total, if that has both
    /// duration bounds, then those of its per-method table.
    pub open spec fn own_rows(self, hour: Seq<char>) -> Seq<StatisticView> {
        let first = if self.total.spec_observed() {
            seq![row_of(hour, None, self.path, self.total)]
        } else {
            Seq::empty()
        };
        first + method_rows(hour, self.path, self.per_method, METHOD_COUNT as int)
    }

    /// The rows of the node and of the subtrees of its first `upto`
    /// children, depth first.
    pub open spec fn rows_upto(self, hour: Seq<char>, upto: nat) -> Seq<StatisticView>
        decreases self, upto,
    {
        if upto == 0 {
            self.own_rows(hour)
        } else if upto <= self.children.len() {
            self.rows_upto(hour, (upto - 1) as nat) + self.children[upto - 1].rows(hour)
        } else {
            self.rows_upto(hour, (upto - 1) as nat)
        }
    }

    /// The rows of the whole subtree, depth first.
    pub open spec fn rows(self, hour: Seq<char>) -> Seq<StatisticView>
        decreases self, self.children.len() + 1,
    {
        self.rows_upto(hour, self.children.len())
    }
}

/// Whether no two of some nodes are keyed by the same segment.
pub open spec fn distinct_segments(nodes: Seq<NodeView>) -> bool {
    forall|i: int, j: int|
        0 <= i < j < nodes.len() ==> (#[trigger] nodes[i]).segment != (#[trigger] nodes[j]).segment
}

/// A search among siblings ends within bounds, and at a hit if it ends
/// before the last sibling.
pub proof fn lemma_position_bounds(nodes: Seq<NodeView>, segment: Seq<char>, from: int)
    requires
        0 <= from <= nodes.len(),
    ensures
        from <= position_from(nodes, segment, from) <= nodes.len(),
        position_from(nodes, segment, from) < nodes.len() ==> nodes[position_from(
            nodes,
            segment,
            from,
        )].segment == segment,
    decreases nodes.len() - from,
{
    if from < nodes.len() && nodes[from].segment != segment {
        lemma_position_bounds(nodes, segment, from + 1);
    }
}

/// A search that finds nothing has seen no node with the segment.
pub proof fn lemma_position_miss(nodes: Seq<NodeView>, segment: Seq<char>, from: int)
    requires
        0 <= from <= nodes.len(),
        position_from(nodes, segment, from) >= nodes.len(),
    ensures
        forall|i: int| from <= i < nodes.len() ==> (#[trigger] nodes[i]).segment != segment,
    decreases nodes.len() - from,
{
    if from < nodes.len() {
        lemma_position_miss(nodes, segment, from + 1);
    }
}

/// Going down a chain leaves the node's own key, path and total as they
/// are.
pub proof fn lemma_chain_keeps_node(
    node: NodeView,
    segments: Seq<Seq<char>>,
    prefix: Seq<char>,
    total: Metrics,
    methods: Seq<Option<Metrics>>,
)
    ensures
        node.chain_merged(segments, prefix, total, methods).segment == node.segment,
        node.chain_merged(segments, prefix, total, methods).path == node.path,
        node.chain_merged(segments, prefix, total, methods).total == node.total,
        segments.len() > 0 ==> node.chain_merged(segments, prefix, total, methods).per_method
            == node.per_method,
{
}

/// A leaf's way down a chain keeps a tree well-formed: every table stays
/// whole and no two siblings get the same key.
pub proof fn lemma_chain_wf(
    node: NodeView,
    segments: Seq<Seq<char>>,
    prefix: Seq<char>,
    total: Metrics,
    methods: Seq<Option<Metrics>>,
)
    requires
        node.wf(),
        methods.len() == METHOD_COUNT,
    ensures
        node.chain_merged(segments, prefix, total, methods).wf(),
    decreases segments.len(),
{
    let after = node.chain_merged(segments, prefix, total, methods);
    if segments.len() == 0 {
        assert(after.children == node.children);
    } else {
        let seg = segments[0];
        let rest = segments.drop_first();
        let path = prefix.push(RESOURCE_DELIMITER) + seg;
        let k = node.child_index(seg);
        let n = node.children.len() as int;
        lemma_position_bounds(node.children, seg, 0);
        let child = if k < n {
            node.children[k].with_total(total)
        } else {
            NodeView::fresh(seg, path, total)
        };
        if k < n {
            assert(node.children[k].wf());
            assert(child.children == node.children[k].children);
        }
        assert(child.wf());
        let grown = child.chain_merged(rest, path, total, methods);
        lemma_chain_wf(child, rest, path, total, methods);
        lemma_chain_keeps_node(child, rest, path, total, methods);
        if k < n {
            assert(after.children == node.children.update(k, grown));
            assert forall|i: int, j: int| 0 <= i < j < after.children.len() implies (
            #[trigger] after.children[i]).segment != (#[trigger] after.children[j]).segment by {
                assert(node.children[i].segment != node.children[j].segment);
            }
            assert forall|i: int| 0 <= i < after.children.len() implies (
            #[trigger] after.children[i]).wf() by {
                if i != k {
                    assert(node.children[i].wf());
                }
            }
        } else {
            lemma_position_miss(node.children, seg, 0);
            assert(after.children == node.children.push(grown));
            assert forall|i: int, j: int| 0 <= i < j < after.children.len() implies (
            #[trigger] after.children[i]).segment != (#[trigger] after.children[j]).segment by {
                if j < n {
                    assert(node.children[i].segment != node.children[j].segment);
                } else {
                    assert(node.children[i].segment != seg);
                }
            }
            assert forall|i: int| 0 <= i < after.children.len() implies (
            #[trigger] after.children[i]).wf() by {
                if i < n {
                    assert(node.children[i].wf());
                }
            }
        }
    }
}

/// A node of the tree, or a leaf before the tree is built: a leaf has no
/// children and holds the figures of one exact path.
#[derive(Debug)]
pub struct RequestNode {
    pub segment: String,
    pub path: String,
    pub total: Metrics,
    pub per_method: MethodTable,
    pub children: Vec<RequestNode>,
}

impl RequestNode {
    pub open spec fn view(&self) -> NodeView
        decreases self,
    {
        NodeView {
            segment: self.segment@,
            path: self.path@,
            total: self.total,
            per_method: self.per_method@,
            children: Seq::new(
                self.children@.len(),
                |i: int|
                    if 0 <= i < self.children@.len() {
                        self.children@[i].view()
                    } else {
                        arbitrary()
                    },
            ),
        }
    }

    pub open spec fn wf(&self) -> bool {
        self@.wf()
    }

    /// Whether the tree is well-formed.
    pub fn is_well_formed(&self) -> (b: bool)
        ensures
            b == self.wf(),
        decreases self,
    {
        if !self.per_method.is_well_formed() {
            return false;
        }
        let mut i: usize = 0;
        while i < self.children.len()
            invariant
                i <= self.children@.len(),
                self.per_method.wf(),
                forall|j: int| 0 <= j < i ==> (#[trigger] self@.children[j]).wf(),
                forall|a: int, b: int|
                    0 <= a < b < i ==> (#[trigger] self@.children[a]).segment != (
                    #[trigger] self@.children[b]).segment,
            decreases self.children@.len() - i,
        {
            proof {
                assert(self@.children[i as int] == self.children@[i as int]@);
            }
            if !self.children[i].is_well_formed() {
                return false;
            }
            let mut j: usize = 0;
            while j < i
                invariant
                    j <= i < self.children@.len(),
                    forall|a: int|
                        0 <= a < j ==> (#[trigger] self@.children[a]).segment
                            != self@.children[i as int].segment,
                decreases i - j,
            {
                proof {
                    assert(self@.children[j as int] == self.children@[j as int]@);
                    assert(self@.children[i as int] == self.children@[i as int]@);
                }
                if self.children[j].segment == self.children[i].segment {
                    proof {
                        if distinct_segments(self@.children) {
                            assert(self@.children[j as int].segment
                                != self@.children[i as int].segment);
                        }
                    }
                    return false;
                }
                j = j + 1;
            }
            i = i + 1;
        }
        true
    }

    /// The leaf that the first request of a path makes.
    pub fn default_with_request(request: NormalizedRequest) -> (leaf: RequestNode)
        ensures
            leaf.wf(),
            leaf@ == NodeView::leaf_started(
                request.normalized_path@,
                request.method,
                request.spec_sample(),
            ),
    {
        let sample = request.sample();
        let mut per_method = MethodTable::new();
        per_method.record(request.method, &sample);
        let leaf = RequestNode {
            segment: String::new(),
            path: request.normalized_path,
            total: Metrics::default_with_request(&sample),
            per_method,
            children: Vec::new(),
        };
        proof {
            assert(leaf@.children =~= Seq::<NodeView>::empty());
        }
        leaf
    }

    /// Counts one more request at a leaf.
    pub fn increment(&mut self, request: &NormalizedRequest)
        requires
            old(self).wf(),
        ensures
            final(self).wf(),
            final(self)@ == old(self)@.counted(request.method, request.spec_sample()),
    {
        let sample = request.sample();
        self.total.increment(&sample);
        self.per_method.record(request.method, &sample);
        proof {
            assert(self@.children =~= old(self)@.children);
        }
    }

    /// Merges the total of another node into this node's total.
    pub fn increment_node(&mut self, request_node: &RequestNode)
        requires
            old(self).wf(),
        ensures
            final(self).wf(),
            final(self)@ == old(self)@.with_total(request_node.total),
    {
        self.total.increment_with_metric(&request_node.total);
        proof {
            assert(self@.children =~= old(self)@.children);
        }
    }

    /// Index of the child keyed by a segment, or the number of children.
    pub fn find_child(&self, segment: &String) -> (k: usize)
        ensures
            k == self@.child_index(segment@),
            k <= self.children@.len(),
    {
        let mut i: usize = 0;
        while i < self.children.len()
            invariant
                i <= self.children@.len(),
                position_from(self@.children, segment@, i as int) == self@.child_index(segment@),
            decreases self.children@.len() - i,
        {
            proof {
                assert(self@.children[i as int] == self.children@[i as int]@);
                assert(self@.children[i as int].segment == self.children@[i as int].segment@);
            }
            if self.children[i].segment == *segment {
                return i;
            }
            i = i + 1;
        }
        i
    }

    /// Sends a leaf's contribution down the chain of the segments from
    /// `from` on, below this node.
    pub fn descend(
        &mut self,
        segments: &Vec<String>,
        from: usize,
        prefix: &String,
        leaf: &RequestNode,
    )
        requires
            from <= segments@.len(),
            old(self).wf(),
            leaf.per_method.wf(),
        ensures
            final(self).wf(),
            final(self)@ == old(self)@.chain_merged(
                texts(segments@).subrange(from as int, segments@.len() as int),
                prefix@,
                leaf.total,
                leaf.per_method@,
            ),
        decreases segments@.len() - from,
    {
        let ghost rest = texts(segments@).subrange(from as int, segments@.len() as int);
        if from == segments.len() {
            self.per_method.merge(&leaf.per_method);
            proof {
                assert(self@.children =~= old(self)@.children);
            }
            return ;
        }
        proof {
            assert(rest[0] == segments@[from as int]@);
            assert(rest.drop_first() =~= texts(segments@).subrange(
                from + 1,
                segments@.len() as int,
            ));
            reveal_strlit("/");
            assert("/"@ =~= seq![RESOURCE_DELIMITER]);
        }
        let mut path = prefix.clone();
        path.append("/");
        path.append(segments[from].as_str());
        proof {
            assert(path@ =~= prefix@.push(RESOURCE_DELIMITER) + segments@[from as int]@);
        }
        let k = self.find_child(&segments[from]);
        if k < self.children.len() {
            let ghost before = self.children@[k as int]@;
            proof {
                assert(self@.children[k as int] == before);
                assert(before.wf());
            }
            let child = &mut self.children[k];
            child.total.increment_with_metric(&leaf.total);
            proof {
                assert(child@.children =~= before.children);
                assert(child@ == before.with_total(leaf.total));
                assert(child@.wf());
            }
            child.descend(segments, from + 1, &path, leaf);
            proof {
                assert(self@.children =~= old(self)@.children.update(
                    k as int,
                    self.children@[k as int]@,
                ));
                lemma_chain_wf(old(self)@, rest, prefix@, leaf.total, leaf.per_method@);
            }
        } else {
            let mut child = RequestNode {
                segment: segments[from].clone(),
                path: path.clone(),
                total: leaf.total,
                per_method: MethodTable::new(),
                children: Vec::new(),
            };
            proof {
                assert(child@.children =~= Seq::<NodeView>::empty());
            }
            child.descend(segments, from + 1, &path, leaf);
            let ghost grown = child@;
            self.children.push(child);
            proof {
                assert(self@.children =~= old(self)@.children.push(grown));
                lemma_chain_wf(old(self)@, rest, prefix@, leaf.total, leaf.per_method@);
            }
        }
    }

    /// Inserts a leaf into the tree that this node is the root of.
    pub fn insert(&mut self, request: &RequestNode)
        requires
            old(self).wf(),
            request.wf(),
        ensures
            final(self).wf(),
            final(self)@ == old(self)@.inserted(request@),
    {
        let resources = split_path(request.path.as_str());
        let n = resources.len();
        if n <= 1 || n > MAX_PATH_DEPTH {
            return ;
        }
        self.increment_node(request);
        if n == 2 {
            self.per_method.merge(&request.per_method);
            proof {
                assert(self@.children =~= old(self)@.children);
            }
            return ;
        }
        let prefix = String::new();
        proof {
            assert(texts(resources@).subrange(1, n as int) =~= texts(resources@).drop_first());
        }
        self.descend(&resources, 1, &prefix, request);
    }
}

/// The row of a summary that has both duration bounds.
pub fn make_row(hour: &str, method: Option<String>, path: &String, m: &Metrics) -> (row:
    ServerStatistic)
    requires
        m.spec_observed(),
    ensures
        row@ == row_of(
            hour@,
            match method {
                Some(name) => Some(name@),
                None => None,
            },
            path@,
            *m,
        ),
{
    ServerStatistic {
        access_timestamp: String::from_str(hour),
        http_method: method,
        path: path.clone(),
        count: m.count,
        bytes_sent: m.bytes,
        total_duration: m.duration_sum,
        min_duration: m.min_duration.unwrap(),
        max_duration: m.max_duration.unwrap(),
        errors: m.errors,
    }
}

impl RequestNode {
    /// Appends the rows of this node and of all nodes below it, depth
    /// first: a node's own rows come before those of its children.
    pub fn flatten(&self, hour: &str, vec: &mut Vec<ServerStatistic>)
        requires
            self.wf(),
        ensures
            row_views(final(vec)@) == row_views(old(vec)@) + self@.rows(hour@),
        decreases self,
    {
        let ghost start = row_views(vec@);
        if self.total.observed() {
            let row = make_row(hour, None, &self.path, &self.total);
            let ghost earlier = vec@;
            vec.push(row);
            proof {
                assert(row_views(vec@) =~= row_views(earlier).push(row@));
            }
        }
        let ghost first = row_views(vec@);
        let mut i: usize = 0;
        while i < METHOD_COUNT
            invariant
                i <= METHOD_COUNT,
                self.wf(),
                row_views(vec@) == first + method_rows(hour@, self.path@, self.per_method@, i as int),
            decreases METHOD_COUNT - i,
        {
            let ghost earlier = vec@;
            match self.per_method.get(Method::at(i)) {
                Some(m) => {
                    if m.observed() {
                        let name = String::from_str(Method::at(i).name());
                        let row = make_row(hour, Some(name), &self.path, &m);
                        vec.push(row);
                        proof {
                            assert(row_views(vec@) =~= row_views(earlier).push(row@));
                        }
                    }
                },
                None => {},
            }
            proof {
                assert(row_views(vec@) =~= first + method_rows(
                    hour@,
                    self.path@,
                    self.per_method@,
                    i + 1,
                ));
            }
            i = i + 1;
        }
        proof {
            assert(row_views(vec@) =~= start + self@.own_rows(hour@));
        }
        let mut c: usize = 0;
        while c < self.children.len()
            invariant
                c <= self.children@.len(),
                self.wf(),
                row_views(vec@) == start + self@.rows_upto(hour@, c as nat),
            decreases self.children@.len() - c,
        {
            let ghost earlier = row_views(vec@);
            proof {
                assert(self@.children[c as int] == self.children@[c as int]@);
                assert(self@.children[c as int].wf());
            }
            self.children[c].flatten(hour, vec);
            proof {
                assert(row_views(vec@) =~= start + self@.rows_upto(hour@, (c + 1) as nat));
            }
            c = c + 1;
        }
    }
}

impl Default for RequestNode {
    /// The root of an empty tree.
    fn default() -> (root: RequestNode)
        ensures
            root.wf(),
            root@ == NodeView::root(),
    {
        let root = RequestNode {
            segment: String::new(),
            path: String::from_str("/"),
            total: Metrics::default(),
            per_method: MethodTable::new(),
            children: Vec::new(),
        };
        proof {
            reveal_strlit("/");
            assert("/"@ =~= seq![RESOURCE_DELIMITER]);
            assert(root@.children =~= Seq::<NodeView>::empty());
        }
        root
    }
}

} // verus!
