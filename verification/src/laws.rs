//! What holds of the aggregation as a whole.

use crate::bucket::{
    all_wf, distinct_paths, leaf_from, leaves_with, lemma_leaf_bounds, lemma_leaves_with_wf,
    tree_of, HourView, PhaseView,
};
use crate::method::{Method, METHOD_COUNT};
use crate::metrics::{Metrics, Sample};
use crate::node::{
    empty_table, lemma_chain_keeps_node, lemma_chain_wf, lemma_position_bounds, merge_slot,
    merge_tables, method_rows, position_from, NodeView, StatisticView, MAX_PATH_DEPTH,
};
use crate::path::{join_segments, spec_strip_minutes, split_segments, RESOURCE_DELIMITER};
use crate::request::{
    groups_recognized, pattern_groups, spec_method_of, spec_path_of, LogRecord, REQUEST_PATTERN,
};
use crate::store::{
    all_built, all_flattened, distinct_hours, hour_from, ingested, lemma_hour_miss,
    lemma_store_distinct, spec_statistics,
};
use vstd::prelude::*;

verus! {

/// Whether a leaf with this path goes into the tree: its path has at least
/// two segments and at most `MAX_PATH_DEPTH`.
pub open spec fn path_counts(path: Seq<char>) -> bool {
    2 <= split_segments(path).len() <= MAX_PATH_DEPTH
}

/// The leaves among the first `upto` that go into the tree, in order.
pub open spec fn kept(leaves: Seq<NodeView>, upto: int) -> Seq<NodeView>
    decreases upto,
{
    if upto <= 0 {
        Seq::empty()
    } else if path_counts(leaves[upto - 1].path) {
        kept(leaves, upto - 1).push(leaves[upto - 1])
    } else {
        kept(leaves, upto - 1)
    }
}

/// The totals of the leaves among the first `upto` that go into the tree,
/// merged.
pub open spec fn merged_totals(leaves: Seq<NodeView>, upto: int) -> Metrics
    decreases upto,
{
    if upto <= 0 {
        Metrics::spec_empty()
    } else if path_counts(leaves[upto - 1].path) {
        merged_totals(leaves, upto - 1).spec_merge(leaves[upto - 1].total)
    } else {
        merged_totals(leaves, upto - 1)
    }
}

/// The summary of two runs of requests, one after the other, is the merge
/// of the summaries of the two runs.
pub proof fn lemma_summary_of_halves(a: Seq<Sample>, b: Seq<Sample>)
    ensures
        Metrics::spec_of(a + b) == Metrics::spec_of(a).spec_merge(Metrics::spec_of(b)),
    decreases b.len(),
{
    if b.len() == 0 {
        assert(a + b =~= a);
    } else {
        lemma_summary_of_halves(a, b.drop_last());
        assert((a + b).drop_last() =~= a + b.drop_last());
        assert((a + b).last() == b.last());
    }
}

/// A request line whose groups are not recognized gives the sentinel:
/// method `Unparsed` and an empty path. A recognized one never gives
/// `Unparsed`.
pub proof fn lemma_unrecognized_is_sentinel(groups: Option<Seq<Option<Seq<char>>>>)
    ensures
        !groups_recognized(groups) ==> spec_method_of(groups) == Method::Unparsed && spec_path_of(
            groups,
        ).len() == 0,
        groups_recognized(groups) ==> spec_method_of(groups) != Method::Unparsed,
{
}

/// The empty path is a single segment, so the sentinel's leaf does not go
/// into the tree.
pub proof fn lemma_empty_path_does_not_count()
    ensures
        !path_counts(Seq::<char>::empty()),
{
    assert(split_segments(Seq::<char>::empty()).len() == 1);
}

/// A leaf whose path has fewer than two segments or more than
/// `MAX_PATH_DEPTH` changes nothing in the tree, the root included.
pub proof fn lemma_dropped_leaf_changes_nothing(root: NodeView, leaf: NodeView)
    requires
        !path_counts(leaf.path),
    ensures
        root.inserted(leaf) == root,
{
}

/// Every leaf that goes into the tree adds its total to the root's total,
/// and no other leaf does.
pub proof fn lemma_inserted_root_total(root: NodeView, leaf: NodeView)
    ensures
        root.inserted(leaf).total == if path_counts(leaf.path) {
            root.total.spec_merge(leaf.total)
        } else {
            root.total
        },
{
    let segments = split_segments(leaf.path);
    if segments.len() > 2 && segments.len() <= MAX_PATH_DEPTH {
        lemma_chain_keeps_node(
            root.with_total(leaf.total),
            segments.drop_first(),
            Seq::empty(),
            leaf.total,
            leaf.per_method,
        );
    }
}

/// The root's total of a tree is the merge of the totals of the leaves
/// that went into it.
pub proof fn lemma_root_total(leaves: Seq<NodeView>, upto: int)
    requires
        upto <= leaves.len(),
    ensures
        tree_of(leaves, upto).total == merged_totals(leaves, upto),
    decreases upto,
{
    if upto > 0 {
        lemma_root_total(leaves, upto - 1);
        lemma_inserted_root_total(tree_of(leaves, upto - 1), leaves[upto - 1]);
    }
}

/// The tree of some leaves does not depend on what comes after them.
pub proof fn lemma_tree_of_prefix(leaves: Seq<NodeView>, more: Seq<NodeView>, upto: int)
    requires
        upto <= leaves.len(),
    ensures
        tree_of(leaves + more, upto) == tree_of(leaves, upto),
    decreases upto,
{
    if upto > 0 {
        lemma_tree_of_prefix(leaves, more, upto - 1);
    }
}

/// The tree of an hour is the tree of those of its leaves that go into it:
/// the others leave no trace.
pub proof fn lemma_tree_ignores_dropped(leaves: Seq<NodeView>, upto: int)
    requires
        upto <= leaves.len(),
    ensures
        tree_of(leaves, upto) == tree_of(kept(leaves, upto), kept(leaves, upto).len() as int),
    decreases upto,
{
    if upto > 0 {
        lemma_tree_ignores_dropped(leaves, upto - 1);
        let leaf = leaves[upto - 1];
        let before = kept(leaves, upto - 1);
        if path_counts(leaf.path) {
            lemma_tree_of_prefix(before, seq![leaf], before.len() as int);
            assert(before + seq![leaf] =~= before.push(leaf));
        } else {
            lemma_dropped_leaf_changes_nothing(tree_of(leaves, upto - 1), leaf);
        }
    }
}

/// The rows of an hour are those of its leaves that go into the tree: a
/// leaf whose path has fewer than two segments or more than
/// `MAX_PATH_DEPTH` adds no row and changes none.
pub proof fn lemma_rows_ignore_dropped(hour: Seq<char>, leaves: Seq<NodeView>)
    ensures
        (HourView { hour, phase: PhaseView::Accumulating(leaves) }).built().flattened().rows() == (
        HourView {
            hour,
            phase: PhaseView::Accumulating(kept(leaves, leaves.len() as int)),
        }).built().flattened().rows(),
{
    lemma_tree_ignores_dropped(leaves, leaves.len() as int);
}

/// Splitting a text and joining the segments again gives the text back.
pub proof fn lemma_join_split(s: Seq<char>)
    ensures
        split_segments(s).len() >= 1,
        join_segments(split_segments(s)) == s,
    decreases s.len(),
{
    if s.len() == 0 {
        assert(join_segments(split_segments(s)) =~= s);
    } else {
        let front = split_segments(s.drop_last());
        lemma_join_split(s.drop_last());
        let c = s.last();
        if c == RESOURCE_DELIMITER {
            let now = front.push(Seq::<char>::empty());
            assert(now.drop_last() =~= front);
            assert(join_segments(now) =~= s.drop_last().push(c));
            assert(s.drop_last().push(c) =~= s);
        } else {
            let now = front.drop_last().push(front.last().push(c));
            assert(now.drop_last() =~= front.drop_last());
            assert(now.last() == front.last().push(c));
            if front.len() == 1 {
                assert(join_segments(front) == front[0]);
                assert(join_segments(now) =~= s.drop_last().push(c));
            } else {
                assert(join_segments(front) == join_segments(front.drop_last()).push(
                    RESOURCE_DELIMITER,
                ) + front.last());
                assert(join_segments(now) =~= join_segments(front).push(c));
            }
            assert(s.drop_last().push(c) =~= s);
        }
    }
}

/// Whether no segment holds a separator.
pub open spec fn plain_segments(segments: Seq<Seq<char>>) -> bool {
    forall|i: int, j: int|
        0 <= i < segments.len() && 0 <= j < segments[i].len() ==> (#[trigger] segments[i][j])
            != RESOURCE_DELIMITER
}

/// A text without separator, put behind another, lengthens its last
/// segment.
pub proof fn lemma_split_append_plain(a: Seq<char>, b: Seq<char>)
    requires
        forall|j: int| 0 <= j < b.len() ==> b[j] != RESOURCE_DELIMITER,
    ensures
        split_segments(a).len() >= 1,
        split_segments(a + b) == split_segments(a).drop_last().push(split_segments(a).last() + b),
    decreases b.len(),
{
    lemma_join_split(a);
    let parts = split_segments(a);
    if b.len() == 0 {
        assert(a + b =~= a);
        assert(parts.last() + b =~= parts.last());
        assert(parts.drop_last().push(parts.last()) =~= parts);
    } else {
        let front = b.drop_last();
        lemma_split_append_plain(a, front);
        assert((a + b).drop_last() =~= a + front);
        assert((a + b).last() == b.last());
        let before = split_segments(a + front);
        assert(before.drop_last() =~= parts.drop_last());
        assert(before.last().push(b.last()) =~= parts.last() + b);
    }
}

/// Joining segments that hold no separator and splitting the text again
/// gives the segments back, so a template has as many segments as were
/// joined.
pub proof fn lemma_split_join(segments: Seq<Seq<char>>)
    requires
        segments.len() >= 1,
        plain_segments(segments),
    ensures
        split_segments(join_segments(segments)) == segments,
    decreases segments.len(),
{
    if segments.len() == 1 {
        let only = segments[0];
        assert forall|j: int| 0 <= j < only.len() implies only[j] != RESOURCE_DELIMITER by {
            assert(segments[0][j] != RESOURCE_DELIMITER);
        }
        lemma_split_append_plain(Seq::<char>::empty(), only);
        assert(Seq::<char>::empty() + only =~= only);
        assert(split_segments(Seq::<char>::empty()) =~= seq![Seq::<char>::empty()]);
        assert(split_segments(only) =~= segments);
    } else {
        let front = segments.drop_last();
        let last = segments.last();
        assert forall|i: int, j: int|
            0 <= i < front.len() && 0 <= j < front[i].len() implies (#[trigger] front[i][j])
            != RESOURCE_DELIMITER by {
            assert(segments[i][j] != RESOURCE_DELIMITER);
        }
        assert forall|j: int| 0 <= j < last.len() implies last[j] != RESOURCE_DELIMITER by {
            assert(segments[segments.len() - 1][j] != RESOURCE_DELIMITER);
        }
        lemma_split_join(front);
        let head = join_segments(front).push(RESOURCE_DELIMITER);
        assert(head.drop_last() =~= join_segments(front));
        assert(split_segments(head) == front.push(Seq::<char>::empty()));
        lemma_split_append_plain(head, last);
        assert(front.push(Seq::<char>::empty()).drop_last() =~= front);
        assert(Seq::<char>::empty() + last =~= last);
        assert(front.push(last) =~= segments);
    }
}

/// A per-method table without entries gives no rows.
pub proof fn lemma_empty_table_rows(hour: Seq<char>, path: Seq<char>, upto: int)
    requires
        upto <= METHOD_COUNT,
    ensures
        method_rows(hour, path, empty_table(), upto) == Seq::<StatisticView>::empty(),
    decreases upto,
{
    if upto > 0 {
        lemma_empty_table_rows(hour, path, upto - 1);
    }
}

/// An hour none of whose leaves goes into the tree gives no rows at all.
pub proof fn lemma_dropped_leaves_give_no_rows(hour: Seq<char>, leaves: Seq<NodeView>)
    requires
        forall|i: int| 0 <= i < leaves.len() ==> !path_counts((#[trigger] leaves[i]).path),
    ensures
        (HourView { hour, phase: PhaseView::Accumulating(leaves) }).built().flattened().rows()
            == Seq::<StatisticView>::empty(),
{
    lemma_all_dropped(leaves, leaves.len() as int);
    lemma_empty_table_rows(hour, NodeView::root().path, METHOD_COUNT as int);
    let root = NodeView::root();
    assert(root.rows_upto(hour, 0) =~= Seq::<StatisticView>::empty());
    assert(root.rows(hour) == root.rows_upto(hour, 0));
}

/// Leaves that do not go into the tree leave it empty.
pub proof fn lemma_all_dropped(leaves: Seq<NodeView>, upto: int)
    requires
        upto <= leaves.len(),
        forall|i: int| 0 <= i < leaves.len() ==> !path_counts((#[trigger] leaves[i]).path),
    ensures
        tree_of(leaves, upto) == NodeView::root(),
    decreases upto,
{
    if upto > 0 {
        lemma_all_dropped(leaves, upto - 1);
        lemma_dropped_leaf_changes_nothing(tree_of(leaves, upto - 1), leaves[upto - 1]);
    }
}

/// Whether one chain of segments begins another.
pub open spec fn is_prefix(q: Seq<Seq<char>>, segments: Seq<Seq<char>>) -> bool {
    q.len() <= segments.len() && segments.subrange(0, q.len() as int) =~= q
}

/// The total of the node that a chain leads to, if there is such a node.
pub open spec fn total_at(node: NodeView, q: Seq<Seq<char>>) -> Option<Metrics> {
    match node.descendant(q) {
        Some(d) => Some(d.total),
        None => None,
    }
}

/// The per-method table of the node that a chain leads to; without such a
/// node, the table without entries.
pub open spec fn table_at(node: NodeView, q: Seq<Seq<char>>) -> Seq<Option<Metrics>> {
    match node.descendant(q) {
        Some(d) => d.per_method,
        None => empty_table(),
    }
}

/// Replacing a sibling by a node with the same key changes no search.
pub proof fn lemma_position_update(
    nodes: Seq<NodeView>,
    k: int,
    replacement: NodeView,
    segment: Seq<char>,
    from: int,
)
    requires
        0 <= k < nodes.len(),
        replacement.segment == nodes[k].segment,
        0 <= from <= nodes.len(),
    ensures
        position_from(nodes.update(k, replacement), segment, from) == position_from(
            nodes,
            segment,
            from,
        ),
    decreases nodes.len() - from,
{
    if from < nodes.len() {
        if nodes[from].segment != segment {
            lemma_position_update(nodes, k, replacement, segment, from + 1);
        }
    }
}

/// A sibling added behind the others is found only by a search that found
/// nothing before.
pub proof fn lemma_position_push(
    nodes: Seq<NodeView>,
    added: NodeView,
    segment: Seq<char>,
    from: int,
)
    requires
        0 <= from <= nodes.len(),
    ensures
        position_from(nodes.push(added), segment, from) == if position_from(nodes, segment, from)
            < nodes.len() {
            position_from(nodes, segment, from)
        } else if added.segment == segment {
            nodes.len() as int
        } else {
            (nodes.len() + 1) as int
        },
    decreases nodes.len() - from,
{
    if from < nodes.len() {
        assert(nodes.push(added)[from] == nodes[from]);
        if nodes[from].segment != segment {
            lemma_position_push(nodes, added, segment, from + 1);
        }
    } else {
        assert(nodes.push(added)[from] == added);
        assert(position_from(nodes.push(added), segment, from + 1) == nodes.len() + 1);
    }
}

/// What a leaf's way down a chain does to the nodes below the node it
/// starts at. A node on the chain exists afterwards; its total is the
/// leaf's total, merged with the total it had if it was there before; its
/// per-method table is as before (empty for a new node), except at the end
/// of the chain, where the leaf's table is merged into it. Every other
/// place below the start is as it was.
pub proof fn lemma_chain_descendants(
    node: NodeView,
    segments: Seq<Seq<char>>,
    prefix: Seq<char>,
    total: Metrics,
    methods: Seq<Option<Metrics>>,
    q: Seq<Seq<char>>,
)
    requires
        q.len() >= 1,
    ensures
        ({
            let after = node.chain_merged(segments, prefix, total, methods);
            if is_prefix(q, segments) {
                &&& after.descendant(q) is Some
                &&& total_at(after, q) == merge_slot(total_at(node, q), Some(total))
                &&& table_at(after, q) == if q.len() == segments.len() {
                    merge_tables(table_at(node, q), methods)
                } else {
                    table_at(node, q)
                }
            } else {
                after.descendant(q) == node.descendant(q)
            }
        }),
    decreases segments.len(),
{
    let after = node.chain_merged(segments, prefix, total, methods);
    if segments.len() == 0 {
        assert(after.children == node.children);
        assert(after.descendant(q) == node.descendant(q));
    } else {
        let seg = segments[0];
        let rest = segments.drop_first();
        let path = prefix.push(RESOURCE_DELIMITER) + seg;
        let k = node.child_index(seg);
        let n = node.children.len() as int;
        lemma_position_bounds(node.children, seg, 0);
        let child = if k < n {
            node.children[k].with_total(total)
        } else {
            NodeView::fresh(seg, path, total)
        };
        let grown = child.chain_merged(rest, path, total, methods);
        lemma_chain_keeps_node(child, rest, path, total, methods);
        assert(grown.segment == seg);
        let q0 = q[0];
        let qrest = q.drop_first();
        lemma_position_bounds(node.children, q0, 0);
        if k < n {
            lemma_position_update(node.children, k, grown, q0, 0);
            assert(after.children == node.children.update(k, grown));
        } else {
            lemma_position_push(node.children, grown, q0, 0);
            assert(after.children == node.children.push(grown));
        }
        if q0 == seg {
            assert(after.child_index(q0) == k);
            assert(after.children[k] == grown);
            assert(after.descendant(q) == grown.descendant(qrest));
            if q.len() <= segments.len() {
                let a = segments.subrange(0, q.len() as int);
                let b = rest.subrange(0, qrest.len() as int);
                if a =~= q {
                    assert forall|i: int| 0 <= i < b.len() implies b[i] == qrest[i] by {
                        assert(a[i + 1] == q[i + 1]);
                    }
                    assert(b =~= qrest);
                }
                if b =~= qrest {
                    assert forall|i: int| 0 <= i < a.len() implies a[i] == q[i] by {
                        if i > 0 {
                            assert(b[i - 1] == qrest[i - 1]);
                        }
                    }
                    assert(a =~= q);
                }
            }
            assert(is_prefix(q, segments) == is_prefix(qrest, rest));
            if k < n {
                assert(child.children == node.children[k].children);
                assert(node.descendant(q) == node.children[k].descendant(qrest));
            } else {
                assert(child.children.len() == 0);
                assert(node.descendant(q) is None);
            }
            if qrest.len() == 0 {
                assert(grown.descendant(qrest) == Some(grown));
                assert(is_prefix(q, segments));
                if k < n {
                    assert(node.children[k].descendant(qrest) == Some(node.children[k]));
                }
            } else {
                lemma_chain_descendants(child, rest, path, total, methods, qrest);
                if k < n {
                    assert(child.descendant(qrest) == node.children[k].descendant(qrest));
                } else {
                    assert(position_from(child.children, qrest[0], 0) == 0);
                    assert(child.descendant(qrest) is None);
                }
            }
        } else {
            if q.len() <= segments.len() {
                assert(segments.subrange(0, q.len() as int)[0] == seg);
            }
            assert(!is_prefix(q, segments));
            assert(after.descendant(q) == node.descendant(q));
        }
    }
}

/// The segments below the root that a leaf's path names.
pub open spec fn chain_of(path: Seq<char>) -> Seq<Seq<char>> {
    split_segments(path).drop_first()
}

/// Whether a leaf with this path goes down a chain of its own: its path
/// has at least three segments and at most `MAX_PATH_DEPTH`.
pub open spec fn path_descends(path: Seq<char>) -> bool {
    3 <= split_segments(path).len() <= MAX_PATH_DEPTH
}

/// The merged totals of the leaves among the first `upto` whose chain
/// begins with `q`: `None` if there is no such leaf.
pub open spec fn merged_at(leaves: Seq<NodeView>, upto: int, q: Seq<Seq<char>>) -> Option<
    Metrics,
>
    decreases upto,
{
    if upto <= 0 {
        None
    } else {
        let leaf = leaves[upto - 1];
        if path_descends(leaf.path) && is_prefix(q, chain_of(leaf.path)) {
            merge_slot(merged_at(leaves, upto - 1, q), Some(leaf.total))
        } else {
            merged_at(leaves, upto - 1, q)
        }
    }
}

/// The merged per-method tables of the leaves among the first `upto` whose
/// chain is exactly `q`.
pub open spec fn methods_at(leaves: Seq<NodeView>, upto: int, q: Seq<Seq<char>>) -> Seq<
    Option<Metrics>,
>
    decreases upto,
{
    if upto <= 0 {
        empty_table()
    } else {
        let leaf = leaves[upto - 1];
        if path_descends(leaf.path) && chain_of(leaf.path) =~= q {
            merge_tables(methods_at(leaves, upto - 1, q), leaf.per_method)
        } else {
            methods_at(leaves, upto - 1, q)
        }
    }
}

/// The merged per-method tables of the leaves among the first `upto` whose
/// path has exactly two segments.
pub open spec fn root_methods(leaves: Seq<NodeView>, upto: int) -> Seq<Option<Metrics>>
    decreases upto,
{
    if upto <= 0 {
        empty_table()
    } else if split_segments(leaves[upto - 1].path).len() == 2 {
        merge_tables(root_methods(leaves, upto - 1), leaves[upto - 1].per_method)
    } else {
        root_methods(leaves, upto - 1)
    }
}

/// In the tree of an hour, the node below the root that a chain `q` leads
/// to exists exactly if some leaf's chain begins with `q`; its total is
/// the merge of the totals of all those leaves, and of no others; its
/// per-method table is the merge of the tables of the leaves whose chain
/// is `q` itself, so a node that no leaf ends at has no per-method entry.
pub proof fn lemma_node_summary(leaves: Seq<NodeView>, upto: int, q: Seq<Seq<char>>)
    requires
        q.len() >= 1,
        upto <= leaves.len(),
    ensures
        total_at(tree_of(leaves, upto), q) == merged_at(leaves, upto, q),
        table_at(tree_of(leaves, upto), q) == methods_at(leaves, upto, q),
    decreases upto,
{
    if upto <= 0 {
        let root = NodeView::root();
        assert(position_from(root.children, q[0], 0) == 0);
        assert(root.descendant(q) is None);
    } else {
        lemma_node_summary(leaves, upto - 1, q);
        let before = tree_of(leaves, upto - 1);
        let leaf = leaves[upto - 1];
        let segments = split_segments(leaf.path);
        let after = before.inserted(leaf);
        if path_descends(leaf.path) {
            let start = before.with_total(leaf.total);
            assert(start.children == before.children);
            assert(start.descendant(q) == before.descendant(q));
            lemma_chain_descendants(
                start,
                chain_of(leaf.path),
                Seq::empty(),
                leaf.total,
                leaf.per_method,
                q,
            );
            if is_prefix(q, chain_of(leaf.path)) && q.len() == chain_of(leaf.path).len() {
                assert(chain_of(leaf.path).subrange(0, q.len() as int) =~= chain_of(leaf.path));
            }
        } else {
            assert(after.children == before.children);
            assert(after.descendant(q) == before.descendant(q));
        }
    }
}

/// The root's per-method table is the merge of the tables of the leaves
/// whose path has exactly two segments.
pub proof fn lemma_root_methods(leaves: Seq<NodeView>, upto: int)
    requires
        upto <= leaves.len(),
    ensures
        tree_of(leaves, upto).per_method == root_methods(leaves, upto),
    decreases upto,
{
    if upto > 0 {
        lemma_root_methods(leaves, upto - 1);
        let before = tree_of(leaves, upto - 1);
        let leaf = leaves[upto - 1];
        if path_descends(leaf.path) {
            lemma_chain_keeps_node(
                before.with_total(leaf.total),
                chain_of(leaf.path),
                Seq::empty(),
                leaf.total,
                leaf.per_method,
            );
        }
    }
}

/// A request as an hour bucket takes it.
pub ghost struct Hit {
    pub path: Seq<char>,
    pub method: Method,
    pub sample: Sample,
}

/// The leaves of a bucket after the first `upto` requests.
pub open spec fn leaves_after(hits: Seq<Hit>, upto: int) -> Seq<NodeView>
    decreases upto,
{
    if upto <= 0 {
        Seq::empty()
    } else {
        let hit = hits[upto - 1];
        leaves_with(leaves_after(hits, upto - 1), hit.path, hit.method, hit.sample)
    }
}

/// The figures of those of the first `upto` requests that have a given
/// path, in order.
pub open spec fn samples_at(hits: Seq<Hit>, upto: int, path: Seq<char>) -> Seq<Sample>
    decreases upto,
{
    if upto <= 0 {
        Seq::empty()
    } else if hits[upto - 1].path == path {
        samples_at(hits, upto - 1, path).push(hits[upto - 1].sample)
    } else {
        samples_at(hits, upto - 1, path)
    }
}

/// Replacing a leaf by one with the same path changes no search.
pub proof fn lemma_leaf_update(
    leaves: Seq<NodeView>,
    k: int,
    replacement: NodeView,
    path: Seq<char>,
    from: int,
)
    requires
        0 <= k < leaves.len(),
        replacement.path == leaves[k].path,
        0 <= from <= leaves.len(),
    ensures
        leaf_from(leaves.update(k, replacement), path, from) == leaf_from(leaves, path, from),
    decreases leaves.len() - from,
{
    if from < leaves.len() {
        if leaves[from].path != path {
            lemma_leaf_update(leaves, k, replacement, path, from + 1);
        }
    }
}

/// A leaf added behind the others is found only by a search that found
/// nothing before.
pub proof fn lemma_leaf_push(leaves: Seq<NodeView>, added: NodeView, path: Seq<char>, from: int)
    requires
        0 <= from <= leaves.len(),
    ensures
        leaf_from(leaves.push(added), path, from) == if leaf_from(leaves, path, from)
            < leaves.len() {
            leaf_from(leaves, path, from)
        } else if added.path == path {
            leaves.len() as int
        } else {
            (leaves.len() + 1) as int
        },
    decreases leaves.len() - from,
{
    if from < leaves.len() {
        assert(leaves.push(added)[from] == leaves[from]);
        if leaves[from].path != path {
            lemma_leaf_push(leaves, added, path, from + 1);
        }
    } else {
        assert(leaves.push(added)[from] == added);
        assert(leaf_from(leaves.push(added), path, from + 1) == leaves.len() + 1);
    }
}

/// A bucket has a leaf for a path exactly if some request had that path,
/// and the leaf's total is the summary of exactly those requests: their
/// number, the sums of their bytes and durations, their shortest and
/// longest duration and the number of server errors among them.
pub proof fn lemma_leaf_summary(hits: Seq<Hit>, upto: int, path: Seq<char>)
    requires
        upto <= hits.len(),
    ensures
        ({
            let leaves = leaves_after(hits, upto);
            let k = leaf_from(leaves, path, 0);
            &&& 0 <= k <= leaves.len()
            &&& (k < leaves.len()) == (samples_at(hits, upto, path).len() > 0)
            &&& k < leaves.len() ==> leaves[k].path == path && leaves[k].total == Metrics::spec_of(
                samples_at(hits, upto, path),
            )
        }),
    decreases upto,
{
    if upto > 0 {
        lemma_leaf_summary(hits, upto - 1, path);
        let prev = leaves_after(hits, upto - 1);
        let hit = hits[upto - 1];
        let kh = leaf_from(prev, hit.path, 0);
        let kp = leaf_from(prev, path, 0);
        lemma_leaf_bounds(prev, hit.path, 0);
        lemma_leaf_bounds(prev, path, 0);
        let earlier = samples_at(hits, upto - 1, path);
        let now = samples_at(hits, upto, path);
        if hit.path == path {
            assert(now.drop_last() =~= earlier);
            assert(now.last() == hit.sample);
        }
        if kh < prev.len() {
            let counted = prev[kh].counted(hit.method, hit.sample);
            lemma_leaf_update(prev, kh, counted, path, 0);
        } else {
            let started = NodeView::leaf_started(hit.path, hit.method, hit.sample);
            lemma_leaf_push(prev, started, path, 0);
            if hit.path == path {
                assert(earlier.len() == 0);
                assert(Metrics::spec_of(earlier) == Metrics::spec_empty());
            }
        }
    } else {
        assert(leaf_from(leaves_after(hits, upto), path, 0) == 0);
    }
}

/// The merged totals of some leaves do not depend on what comes after
/// them.
pub proof fn lemma_merged_prefix(
    leaves: Seq<NodeView>,
    more: Seq<NodeView>,
    upto: int,
    q: Seq<Seq<char>>,
)
    requires
        upto <= leaves.len(),
    ensures
        merged_at(leaves + more, upto, q) == merged_at(leaves, upto, q),
        merged_totals(leaves + more, upto) == merged_totals(leaves, upto),
    decreases upto,
{
    if upto > 0 {
        lemma_merged_prefix(leaves, more, upto - 1, q);
    }
}

/// The merged totals of two runs of leaves, one after the other, are the
/// merge of the merged totals of the two runs.
pub proof fn lemma_merged_halves(a: Seq<NodeView>, b: Seq<NodeView>, upto: int, q: Seq<Seq<char>>)
    requires
        0 <= upto <= b.len(),
    ensures
        merged_at(a + b, a.len() + upto, q) == merge_slot(
            merged_at(a, a.len() as int, q),
            merged_at(b, upto, q),
        ),
        merged_totals(a + b, a.len() + upto) == merged_totals(a, a.len() as int).spec_merge(
            merged_totals(b, upto),
        ),
    decreases upto,
{
    if upto == 0 {
        lemma_merged_prefix(a, b, a.len() as int, q);
    } else {
        lemma_merged_halves(a, b, upto - 1, q);
        assert((a + b)[a.len() + upto - 1] == b[upto - 1]);
    }
}

/// Building one tree from all leaves gives, at the root and at every node
/// below it, the total that merging the totals of two trees gives, one
/// built from the first part of the leaves and one from the rest.
pub proof fn lemma_halves_totals(a: Seq<NodeView>, b: Seq<NodeView>, q: Seq<Seq<char>>)
    requires
        q.len() >= 1,
    ensures
        tree_of(a + b, (a + b).len() as int).total == tree_of(a, a.len() as int).total.spec_merge(
            tree_of(b, b.len() as int).total,
        ),
        total_at(tree_of(a + b, (a + b).len() as int), q) == merge_slot(
            total_at(tree_of(a, a.len() as int), q),
            total_at(tree_of(b, b.len() as int), q),
        ),
{
    lemma_merged_halves(a, b, b.len() as int, q);
    lemma_node_summary(a + b, (a + b).len() as int, q);
    lemma_node_summary(a, a.len() as int, q);
    lemma_node_summary(b, b.len() as int, q);
    lemma_root_total(a + b, (a + b).len() as int);
    lemma_root_total(a, a.len() as int);
    lemma_root_total(b, b.len() as int);
}

/// Whether two logs hold the same records, field by field.
pub open spec fn same_content(a: Seq<LogRecord>, b: Seq<LogRecord>) -> bool {
    &&& a.len() == b.len()
    &&& forall|i: int|
        0 <= i < a.len() ==> {
            &&& (#[trigger] a[i]).time_iso8601@ == b[i].time_iso8601@
            &&& a[i].request@ == b[i].request@
            &&& a[i].status == b[i].status
            &&& a[i].bytes_sent == b[i].bytes_sent
            &&& a[i].request_time_ms == b[i].request_time_ms
        }
}

/// Logs with the same records fill the same buckets.
pub proof fn lemma_same_log_same_buckets(a: Seq<LogRecord>, b: Seq<LogRecord>, upto: int)
    requires
        same_content(a, b),
        upto <= a.len(),
    ensures
        ingested(a, upto) == ingested(b, upto),
    decreases upto,
{
    if upto > 0 {
        lemma_same_log_same_buckets(a, b, upto - 1);
        assert(a[upto - 1].request@ == b[upto - 1].request@);
    }
}

/// A run over the same records gives the same rows, in the same order.
pub proof fn lemma_same_log_same_rows(a: Seq<LogRecord>, b: Seq<LogRecord>)
    requires
        same_content(a, b),
    ensures
        spec_statistics(a) == spec_statistics(b),
{
    lemma_same_log_same_buckets(a, b, a.len() as int);
}

/// The tree of well-formed leaves is well-formed.
pub proof fn lemma_tree_wf(leaves: Seq<NodeView>, upto: int)
    requires
        upto <= leaves.len(),
        all_wf(leaves),
    ensures
        tree_of(leaves, upto).wf(),
    decreases upto,
{
    if upto > 0 {
        lemma_tree_wf(leaves, upto - 1);
        let before = tree_of(leaves, upto - 1);
        let leaf = leaves[upto - 1];
        let start = before.with_total(leaf.total);
        assert(start.children == before.children);
        assert(leaf.wf());
        if path_descends(leaf.path) {
            lemma_chain_wf(start, chain_of(leaf.path), Seq::empty(), leaf.total, leaf.per_method);
        } else {
            assert(before.inserted(leaf).children == before.children);
        }
    }
}

/// The leaves of a bucket are well-formed and hold pairwise different
/// paths, whatever requests it took in.
pub proof fn lemma_leaves_after_wf(hits: Seq<Hit>, upto: int)
    requires
        upto <= hits.len(),
    ensures
        all_wf(leaves_after(hits, upto)),
        distinct_paths(leaves_after(hits, upto)),
    decreases upto,
{
    if upto > 0 {
        lemma_leaves_after_wf(hits, upto - 1);
        let hit = hits[upto - 1];
        lemma_leaves_with_wf(leaves_after(hits, upto - 1), hit.path, hit.method, hit.sample);
    }
}

/// The figures of those of the first `upto` requests that have a given
/// path and method, in order.
pub open spec fn samples_for(hits: Seq<Hit>, upto: int, path: Seq<char>, method: Method) -> Seq<
    Sample,
>
    decreases upto,
{
    if upto <= 0 {
        Seq::empty()
    } else if hits[upto - 1].path == path && hits[upto - 1].method == method {
        samples_for(hits, upto - 1, path, method).push(hits[upto - 1].sample)
    } else {
        samples_for(hits, upto - 1, path, method)
    }
}

/// The summary of some requests, or `None` if there are none.
pub open spec fn summary_if_any(samples: Seq<Sample>) -> Option<Metrics> {
    if samples.len() == 0 {
        None
    } else {
        Some(Metrics::spec_of(samples))
    }
}

/// The per-method table of a leaf holds, for each method, the summary of
/// exactly the requests with the leaf's path and that method, and no
/// entry for a method without such a request.
pub proof fn lemma_leaf_method_summary(
    hits: Seq<Hit>,
    upto: int,
    path: Seq<char>,
    method: Method,
)
    requires
        upto <= hits.len(),
    ensures
        ({
            let leaves = leaves_after(hits, upto);
            let k = leaf_from(leaves, path, 0);
            if 0 <= k < leaves.len() {
                leaves[k].per_method[method.spec_index()] == summary_if_any(
                    samples_for(hits, upto, path, method),
                )
            } else {
                samples_for(hits, upto, path, method).len() == 0
            }
        }),
    decreases upto,
{
    if upto > 0 {
        lemma_leaf_method_summary(hits, upto - 1, path, method);
        lemma_leaves_after_wf(hits, upto - 1);
        let prev = leaves_after(hits, upto - 1);
        let hit = hits[upto - 1];
        let kh = leaf_from(prev, hit.path, 0);
        lemma_leaf_bounds(prev, hit.path, 0);
        lemma_leaf_bounds(prev, path, 0);
        let earlier = samples_for(hits, upto - 1, path, method);
        let now = samples_for(hits, upto, path, method);
        if hit.path == path && hit.method == method {
            assert(now.drop_last() =~= earlier);
            assert(now.last() == hit.sample);
            if earlier.len() == 0 {
                assert(Metrics::spec_of(earlier) == Metrics::spec_empty());
            }
        }
        if kh < prev.len() {
            assert(prev[kh].wf());
            let counted = prev[kh].counted(hit.method, hit.sample);
            lemma_leaf_update(prev, kh, counted, path, 0);
        } else {
            let started = NodeView::leaf_started(hit.path, hit.method, hit.sample);
            lemma_leaf_push(prev, started, path, 0);
        }
    } else {
        assert(leaf_from(leaves_after(hits, upto), path, 0) == 0);
    }
}

/// The buckets of a log are for pairwise different hours.
pub proof fn lemma_hours_distinct(records: Seq<LogRecord>, upto: int)
    requires
        upto <= records.len(),
    ensures
        distinct_hours(ingested(records, upto)),
    decreases upto,
{
    if upto > 0 {
        lemma_hours_distinct(records, upto - 1);
        let record = records[upto - 1];
        let groups = pattern_groups(REQUEST_PATTERN@, record.request@);
        lemma_store_distinct(
            ingested(records, upto - 1),
            spec_strip_minutes(record.time_iso8601@),
            spec_path_of(groups),
            spec_method_of(groups),
            Sample {
                bytes_sent: record.bytes_sent,
                duration_ms: record.request_time_ms,
                status_code: record.status,
            },
        );
    }
}

/// The request that a record makes, as its bucket takes it.
pub open spec fn hit_of(record: LogRecord) -> Hit {
    let groups = pattern_groups(REQUEST_PATTERN@, record.request@);
    Hit {
        path: spec_path_of(groups),
        method: spec_method_of(groups),
        sample: Sample {
            bytes_sent: record.bytes_sent,
            duration_ms: record.request_time_ms,
            status_code: record.status,
        },
    }
}

/// The requests of those of the first `upto` records that fall into a
/// given hour, in order.
pub open spec fn hits_of(records: Seq<LogRecord>, upto: int, hour: Seq<char>) -> Seq<Hit>
    decreases upto,
{
    if upto <= 0 {
        Seq::empty()
    } else if spec_strip_minutes(records[upto - 1].time_iso8601@) == hour {
        hits_of(records, upto - 1, hour).push(hit_of(records[upto - 1]))
    } else {
        hits_of(records, upto - 1, hour)
    }
}

/// The leaves after some requests do not depend on what comes after them.
pub proof fn lemma_leaves_after_prefix(hits: Seq<Hit>, more: Seq<Hit>, upto: int)
    requires
        upto <= hits.len(),
    ensures
        leaves_after(hits + more, upto) == leaves_after(hits, upto),
    decreases upto,
{
    if upto > 0 {
        lemma_leaves_after_prefix(hits, more, upto - 1);
    }
}

/// A search among buckets that ends before the last one ends at a bucket
/// of the hour.
pub proof fn lemma_hour_hit(hours: Seq<HourView>, hour: Seq<char>, from: int)
    requires
        0 <= from <= hours.len(),
    ensures
        hour_from(hours, hour, from) < hours.len() ==> hours[hour_from(hours, hour, from)].hour
            == hour,
    decreases hours.len() - from,
{
    if from < hours.len() && hours[from].hour != hour {
        lemma_hour_hit(hours, hour, from + 1);
    }
}

/// Replacing a bucket by one for the same hour changes no search.
pub proof fn lemma_hour_update(
    hours: Seq<HourView>,
    k: int,
    replacement: HourView,
    hour: Seq<char>,
    from: int,
)
    requires
        0 <= k < hours.len(),
        replacement.hour == hours[k].hour,
        0 <= from <= hours.len(),
    ensures
        hour_from(hours.update(k, replacement), hour, from) == hour_from(hours, hour, from),
    decreases hours.len() - from,
{
    if from < hours.len() {
        if hours[from].hour != hour {
            lemma_hour_update(hours, k, replacement, hour, from + 1);
        }
    }
}

/// A bucket added behind the others is found only by a search that found
/// nothing before.
pub proof fn lemma_hour_push(hours: Seq<HourView>, added: HourView, hour: Seq<char>, from: int)
    requires
        0 <= from <= hours.len(),
    ensures
        hour_from(hours.push(added), hour, from) == if hour_from(hours, hour, from) < hours.len() {
            hour_from(hours, hour, from)
        } else if added.hour == hour {
            hours.len() as int
        } else {
            (hours.len() + 1) as int
        },
    decreases hours.len() - from,
{
    if from < hours.len() {
        assert(hours.push(added)[from] == hours[from]);
        if hours[from].hour != hour {
            lemma_hour_push(hours, added, hour, from + 1);
        }
    } else {
        assert(hours.push(added)[from] == added);
        assert(hour_from(hours.push(added), hour, from + 1) == hours.len() + 1);
    }
}

/// After a log was taken in there is a bucket for an hour exactly if some
/// record falls into that hour, and the bucket holds the leaves that
/// exactly the requests of that hour make, taken in order.
pub proof fn lemma_bucket_of_hour(records: Seq<LogRecord>, upto: int, hour: Seq<char>)
    requires
        upto <= records.len(),
    ensures
        ({
            let hours = ingested(records, upto);
            let k = hour_from(hours, hour, 0);
            let hits = hits_of(records, upto, hour);
            if 0 <= k < hours.len() {
                &&& hits.len() > 0
                &&& hours[k].hour == hour
                &&& hours[k].phase == PhaseView::Accumulating(
                    leaves_after(hits, hits.len() as int),
                )
            } else {
                hits.len() == 0
            }
        }),
    decreases upto,
{
    if upto > 0 {
        lemma_bucket_of_hour(records, upto - 1, hour);
        let prev = ingested(records, upto - 1);
        let record = records[upto - 1];
        let h = spec_strip_minutes(record.time_iso8601@);
        let hit = hit_of(record);
        let kh = hour_from(prev, h, 0);
        lemma_hour_miss(prev, h, 0);
        lemma_hour_miss(prev, hour, 0);
        lemma_hour_hit(prev, h, 0);
        lemma_hour_hit(prev, hour, 0);
        let earlier = hits_of(records, upto - 1, hour);
        let now = hits_of(records, upto, hour);
        if h == hour {
            assert(now =~= earlier + seq![hit]);
            lemma_leaves_after_prefix(earlier, seq![hit], earlier.len() as int);
            assert(now[now.len() - 1] == hit);
        }
        if kh < prev.len() {
            let grown = prev[kh].inserted(hit.path, hit.method, hit.sample);
            lemma_hour_update(prev, kh, grown, hour, 0);
        } else {
            let started = HourView::started(h).inserted(hit.path, hit.method, hit.sample);
            lemma_hour_push(prev, started, hour, 0);
        }
    } else {
        assert(hour_from(ingested(records, upto), hour, 0) == 0);
    }
}

/// The whole way of an hour through a run. After a log was taken in and
/// every tree built and flattened, the bucket of an hour holds the rows of
/// the tree of the leaves that the requests of that hour make. In that
/// tree the root's total is the merge of the totals of all leaves that go
/// into the tree; the node that a chain of segments leads to has the
/// merged totals of exactly the leaves whose path begins with that chain,
/// and the merged per-method tables of exactly the leaves whose path is
/// that chain.
pub proof fn lemma_hour_rows(records: Seq<LogRecord>, hour: Seq<char>, q: Seq<Seq<char>>)
    requires
        q.len() >= 1,
    ensures
        ({
            let hours = ingested(records, records.len() as int);
            let k = hour_from(hours, hour, 0);
            let hits = hits_of(records, records.len() as int, hour);
            let leaves = leaves_after(hits, hits.len() as int);
            let tree = tree_of(leaves, leaves.len() as int);
            0 <= k < hours.len() ==> {
                &&& all_built(hours)[k].phase == PhaseView::Hierarchy(tree)
                &&& all_flattened(all_built(hours))[k].rows() == tree.rows(hour)
                &&& tree.total == merged_totals(leaves, leaves.len() as int)
                &&& tree.per_method == root_methods(leaves, leaves.len() as int)
                &&& total_at(tree, q) == merged_at(leaves, leaves.len() as int, q)
                &&& table_at(tree, q) == methods_at(leaves, leaves.len() as int, q)
            }
        }),
{
    let hits = hits_of(records, records.len() as int, hour);
    let leaves = leaves_after(hits, hits.len() as int);
    lemma_bucket_of_hour(records, records.len() as int, hour);
    lemma_root_total(leaves, leaves.len() as int);
    lemma_root_methods(leaves, leaves.len() as int);
    lemma_node_summary(leaves, leaves.len() as int, q);
}

} // verus!
