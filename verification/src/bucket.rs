//! Hour buckets and the store that holds them.

use crate::method::Method;
use crate::metrics::Sample;
use crate::node::{row_views, NodeView, RequestNode, ServerStatistic, StatisticView};
use crate::request::NormalizedRequest;
use vstd::prelude::*;

verus! {

/// What a sequence of nodes is.
pub open spec fn node_views(nodes: Seq<RequestNode>) -> Seq<NodeView> {
    Seq::new(nodes.len(), |i: int| nodes[i]@)
}

/// Index of the first leaf from `from` on that holds `path`; the number of
/// leaves if there is none.
pub open spec fn leaf_from(leaves: Seq<NodeView>, path: Seq<char>, from: int) -> int
    decreases leaves.len() - from,
{
    if from < 0 || from >= leaves.len() {
        leaves.len() as int
    } else if leaves[from].path == path {
        from
    } else {
        leaf_from(leaves, path, from + 1)
    }
}

/// The leaves after one request: counted at the leaf of its path, or at a
/// new leaf behind the others.
pub open spec fn leaves_with(
    leaves: Seq<NodeView>,
    path: Seq<char>,
    method: Method,
    sample: Sample,
) -> Seq<NodeView> {
    let k = leaf_from(leaves, path, 0);
    if k < leaves.len() {
        leaves.update(k, leaves[k].counted(method, sample))
    } else {
        leaves.push(NodeView::leaf_started(path, method, sample))
    }
}

/// The tree made of the first `upto` leaves, inserted one after the other
/// into an empty tree.
pub open spec fn tree_of(leaves: Seq<NodeView>, upto: int) -> NodeView
    decreases upto,
{
    if upto <= 0 {
        NodeView::root()
    } else {
        tree_of(leaves, upto - 1).inserted(leaves[upto - 1])
    }
}

/// What an hour holds: leaves while requests come in, then the tree, then
/// the rows. It holds one of the three at any time.
#[derive(Debug)]
pub enum HourPhase {
    Accumulating(Vec<RequestNode>),
    Hierarchy(RequestNode),
    Flattened(Vec<ServerStatistic>),
}

pub ghost enum PhaseView {
    Accumulating(Seq<NodeView>),
    Hierarchy(NodeView),
    Flattened(Seq<StatisticView>),
}

impl HourPhase {
    pub open spec fn view(&self) -> PhaseView {
        match self {
            HourPhase::Accumulating(leaves) => PhaseView::Accumulating(node_views(leaves@)),
            HourPhase::Hierarchy(root) => PhaseView::Hierarchy(root@),
            HourPhase::Flattened(rows) => PhaseView::Flattened(row_views(rows@)),
        }
    }
}

/// Whether no two of some leaves hold the same path.
pub open spec fn distinct_paths(leaves: Seq<NodeView>) -> bool {
    forall|i: int, j: int|
        0 <= i < j < leaves.len() ==> (#[trigger] leaves[i]).path != (#[trigger] leaves[j]).path
}

/// A search among leaves ends within bounds, and at a hit if it ends
/// before the last leaf.
pub proof fn lemma_leaf_bounds(leaves: Seq<NodeView>, path: Seq<char>, from: int)
    requires
        0 <= from <= leaves.len(),
    ensures
        from <= leaf_from(leaves, path, from) <= leaves.len(),
        leaf_from(leaves, path, from) < leaves.len() ==> leaves[leaf_from(
            leaves,
            path,
            from,
        )].path == path,
    decreases leaves.len() - from,
{
    if from < leaves.len() && leaves[from].path != path {
        lemma_leaf_bounds(leaves, path, from + 1);
    }
}

/// A search that finds nothing has seen no leaf with the path.
pub proof fn lemma_leaf_miss(leaves: Seq<NodeView>, path: Seq<char>, from: int)
    requires
        0 <= from <= leaves.len(),
        leaf_from(leaves, path, from) >= leaves.len(),
    ensures
        forall|i: int| from <= i < leaves.len() ==> (#[trigger] leaves[i]).path != path,
    decreases leaves.len() - from,
{
    if from < leaves.len() {
        lemma_leaf_miss(leaves, path, from + 1);
    }
}

/// Taking a request in keeps the leaves well-formed and their paths
/// pairwise different.
pub proof fn lemma_leaves_with_wf(
    leaves: Seq<NodeView>,
    path: Seq<char>,
    method: Method,
    sample: Sample,
)
    requires
        all_wf(leaves),
        distinct_paths(leaves),
    ensures
        all_wf(leaves_with(leaves, path, method, sample)),
        distinct_paths(leaves_with(leaves, path, method, sample)),
{
    let now = leaves_with(leaves, path, method, sample);
    let k = leaf_from(leaves, path, 0);
    lemma_leaf_bounds(leaves, path, 0);
    if k < leaves.len() {
        assert(leaves[k].wf());
        assert forall|i: int| 0 <= i < now.len() implies (#[trigger] now[i]).wf() by {
            if i != k {
                assert(leaves[i].wf());
            }
        }
        assert forall|i: int, j: int| 0 <= i < j < now.len() implies (#[trigger] now[i]).path != (
        #[trigger] now[j]).path by {
            assert(leaves[i].path != leaves[j].path);
        }
    } else {
        lemma_leaf_miss(leaves, path, 0);
        assert(NodeView::leaf_started(path, method, sample).children.len() == 0);
        assert forall|i: int| 0 <= i < now.len() implies (#[trigger] now[i]).wf() by {
            if i < leaves.len() {
                assert(leaves[i].wf());
            }
        }
        assert forall|i: int, j: int| 0 <= i < j < now.len() implies (#[trigger] now[i]).path != (
        #[trigger] now[j]).path by {
            if j < leaves.len() {
                assert(leaves[i].path != leaves[j].path);
            } else {
                assert(leaves[i].path != path);
            }
        }
    }
}

/// Whether every one of some nodes is well-formed.
pub open spec fn all_wf(nodes: Seq<NodeView>) -> bool {
    forall|i: int| 0 <= i < nodes.len() ==> (#[trigger] nodes[i]).wf()
}

impl PhaseView {
    pub open spec fn wf(self) -> bool {
        match self {
            PhaseView::Accumulating(leaves) => all_wf(leaves) && distinct_paths(leaves),
            PhaseView::Hierarchy(root) => root.wf(),
            PhaseView::Flattened(_) => true,
        }
    }
}

/// What an hour bucket is: its hour and what it holds.
pub ghost struct HourView {
    pub hour: Seq<char>,
    pub phase: PhaseView,
}

impl HourView {
    pub open spec fn wf(self) -> bool {
        self.phase.wf()
    }

    /// A bucket without requests.
    pub open spec fn started(hour: Seq<char>) -> HourView {
        HourView { hour, phase: PhaseView::Accumulating(Seq::empty()) }
    }

    /// The bucket after one request. Only a bucket that still takes
    /// requests changes.
    pub open spec fn inserted(self, path: Seq<char>, method: Method, sample: Sample) -> HourView {
        match self.phase {
            PhaseView::Accumulating(leaves) => HourView {
                phase: PhaseView::Accumulating(leaves_with(leaves, path, method, sample)),
                ..self
            },
            _ => self,
        }
    }

    /// The bucket with its leaves turned into a tree.
    pub open spec fn built(self) -> HourView {
        match self.phase {
            PhaseView::Accumulating(leaves) => HourView {
                phase: PhaseView::Hierarchy(tree_of(leaves, leaves.len() as int)),
                ..self
            },
            _ => self,
        }
    }

    /// The bucket with its tree turned into rows.
    pub open spec fn flattened(self) -> HourView {
        match self.phase {
            PhaseView::Hierarchy(root) => HourView {
                phase: PhaseView::Flattened(root.rows(self.hour)),
                ..self
            },
            _ => self,
        }
    }

    /// The rows that the bucket holds.
    pub open spec fn rows(self) -> Seq<StatisticView> {
        match self.phase {
            PhaseView::Flattened(rows) => rows,
            _ => Seq::empty(),
        }
    }

    /// The bucket with its rows taken out.
    pub open spec fn drained(self) -> HourView {
        match self.phase {
            PhaseView::Flattened(_) => HourView {
                phase: PhaseView::Flattened(Seq::empty()),
                ..self
            },
            _ => self,
        }
    }
}

/// The requests of one hour.
#[derive(Debug)]
pub struct ParseNginxLogHour {
    pub hour: String,
    pub phase: HourPhase,
}

impl ParseNginxLogHour {
    pub open spec fn view(&self) -> HourView {
        HourView { hour: self.hour@, phase: self.phase@ }
    }

    pub open spec fn wf(&self) -> bool {
        self@.wf()
    }

    /// A bucket for an hour, ready to take requests.
    pub fn new(hour: String) -> (b: ParseNginxLogHour)
        ensures
            b.wf(),
            b@ == HourView::started(hour@),
    {
        let b = ParseNginxLogHour { hour, phase: HourPhase::Accumulating(Vec::new()) };
        proof {
            assert(node_views(Seq::<RequestNode>::empty()) =~= Seq::<NodeView>::empty());
        }
        b
    }

    /// Whether the bucket is well-formed.
    pub fn is_well_formed(&self) -> (b: bool)
        ensures
            b == self.wf(),
    {
        match &self.phase {
            HourPhase::Accumulating(leaves) => {
                let mut i: usize = 0;
                while i < leaves.len()
                    invariant
                        i <= leaves@.len(),
                        self@.phase == PhaseView::Accumulating(node_views(leaves@)),
                        forall|j: int| 0 <= j < i ==> (#[trigger] node_views(leaves@)[j]).wf(),
                        forall|a: int, b: int|
                            0 <= a < b < i ==> (#[trigger] node_views(leaves@)[a]).path != (
                            #[trigger] node_views(leaves@)[b]).path,
                    decreases leaves@.len() - i,
                {
                    let ghost views = node_views(leaves@);
                    proof {
                        assert(views[i as int] == leaves@[i as int]@);
                    }
                    if !leaves[i].is_well_formed() {
                        proof {
                            assert(!views[i as int].wf());
                        }
                        return false;
                    }
                    let mut j: usize = 0;
                    while j < i
                        invariant
                            j <= i < leaves@.len(),
                            views == node_views(leaves@),
                            self@.phase == PhaseView::Accumulating(views),
                            forall|a: int|
                                0 <= a < j ==> (#[trigger] views[a]).path != views[i as int].path,
                        decreases i - j,
                    {
                        proof {
                            assert(views[j as int] == leaves@[j as int]@);
                            assert(views[i as int] == leaves@[i as int]@);
                        }
                        if leaves[j].path == leaves[i].path {
                            proof {
                                if distinct_paths(views) {
                                    assert(views[j as int].path != views[i as int].path);
                                }
                            }
                            return false;
                        }
                        j = j + 1;
                    }
                    i = i + 1;
                }
                true
            },
            HourPhase::Hierarchy(root) => root.is_well_formed(),
            HourPhase::Flattened(_) => true,
        }
    }

    /// Counts one request at the leaf of its path.
    pub fn insert(&mut self, request: NormalizedRequest)
        requires
            old(self).wf(),
        ensures
            final(self).wf(),
            final(self)@ == old(self)@.inserted(
                request.normalized_path@,
                request.method,
                request.spec_sample(),
            ),
    {
        let mut phase = HourPhase::Flattened(Vec::new());
        core::mem::swap(&mut self.phase, &mut phase);
        match phase {
            HourPhase::Accumulating(mut leaves) => {
                let ghost before = node_views(leaves@);
                proof {
                    lemma_leaves_with_wf(
                        before,
                        request.normalized_path@,
                        request.method,
                        request.spec_sample(),
                    );
                }
                let k = find_leaf(&leaves, &request.normalized_path);
                if k < leaves.len() {
                    let leaf = &mut leaves[k];
                    proof {
                        assert(leaf@ == before[k as int]);
                    }
                    leaf.increment(&request);
                    proof {
                        assert(node_views(leaves@) =~= before.update(
                            k as int,
                            before[k as int].counted(request.method, request.spec_sample()),
                        ));
                    }
                } else {
                    let ghost path = request.normalized_path@;
                    let ghost method = request.method;
                    let ghost sample = request.spec_sample();
                    let leaf = RequestNode::default_with_request(request);
                    leaves.push(leaf);
                    proof {
                        assert(node_views(leaves@) =~= before.push(
                            NodeView::leaf_started(path, method, sample),
                        ));
                    }
                }
                self.phase = HourPhase::Accumulating(leaves);
            },
            other => {
                self.phase = other;
            },
        }
    }

    /// Turns the leaves into the tree of the hour. The leaves are gone
    /// afterwards. A bucket that is past taking requests stays as it is.
    pub fn build_hierarchy(&mut self)
        requires
            old(self).wf(),
        ensures
            final(self).wf(),
            final(self)@ == old(self)@.built(),
    {
        let mut phase = HourPhase::Flattened(Vec::new());
        core::mem::swap(&mut self.phase, &mut phase);
        match phase {
            HourPhase::Accumulating(leaves) => {
                let mut hierarchy = RequestNode::default();
                let mut i: usize = 0;
                while i < leaves.len()
                    invariant
                        i <= leaves@.len(),
                        hierarchy.wf(),
                        forall|j: int|
                            0 <= j < leaves@.len() ==> (#[trigger] node_views(leaves@)[j]).wf(),
                        hierarchy@ == tree_of(node_views(leaves@), i as int),
                    decreases leaves@.len() - i,
                {
                    proof {
                        assert(node_views(leaves@)[i as int].wf());
                    }
                    hierarchy.insert(&leaves[i]);
                    i = i + 1;
                }
                self.phase = HourPhase::Hierarchy(hierarchy);
            },
            other => {
                self.phase = other;
            },
        }
    }

    /// Turns the tree into the rows of the hour. The tree is gone
    /// afterwards. A bucket that holds no tree stays as it is.
    pub fn flatten(&mut self)
        requires
            old(self).wf(),
        ensures
            final(self).wf(),
            final(self)@ == old(self)@.flattened(),
    {
        let mut phase = HourPhase::Flattened(Vec::new());
        core::mem::swap(&mut self.phase, &mut phase);
        match phase {
            HourPhase::Hierarchy(hierarchy) => {
                let mut vec: Vec<ServerStatistic> = Vec::new();
                hierarchy.flatten(self.hour.as_str(), &mut vec);
                proof {
                    assert(row_views(vec@) =~= hierarchy@.rows(self.hour@));
                }
                self.phase = HourPhase::Flattened(vec);
            },
            other => {
                self.phase = other;
            },
        }
    }

    /// Hands out the rows of the hour and leaves none behind.
    pub fn take_rows(&mut self) -> (rows: Vec<ServerStatistic>)
        requires
            old(self).wf(),
        ensures
            final(self).wf(),
            row_views(rows@) == old(self)@.rows(),
            final(self)@ == old(self)@.drained(),
    {
        let mut phase = HourPhase::Flattened(Vec::new());
        core::mem::swap(&mut self.phase, &mut phase);
        match phase {
            HourPhase::Flattened(rows) => {
                proof {
                    assert(row_views(Seq::<ServerStatistic>::empty()) =~= Seq::<
                        StatisticView,
                    >::empty());
                }
                rows
            },
            other => {
                self.phase = other;
                proof {
                    assert(row_views(Seq::<ServerStatistic>::empty()) =~= Seq::<
                        StatisticView,
                    >::empty());
                }
                Vec::new()
            },
        }
    }
}

/// Index of the leaf that holds a path, or the number of leaves.
pub fn find_leaf(leaves: &Vec<RequestNode>, path: &String) -> (k: usize)
    ensures
        k == leaf_from(node_views(leaves@), path@, 0),
        k <= leaves@.len(),
{
    let mut i: usize = 0;
    while i < leaves.len()
        invariant
            i <= leaves@.len(),
            leaf_from(node_views(leaves@), path@, i as int) == leaf_from(
                node_views(leaves@),
                path@,
                0,
            ),
        decreases leaves@.len() - i,
    {
        proof {
            assert(node_views(leaves@)[i as int].path == leaves@[i as int].path@);
        }
        if leaves[i].path == *path {
            return i;
        }
        i = i + 1;
    }
    i
}

} // verus!
