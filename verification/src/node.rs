//! A node: the successors seen after one word, each with its weight.

use crate::error::GenerationError;
use crate::random::draw_between;
use crate::table::WordTable;
use rand::rngs::StdRng;
use vstd::prelude::*;

verus! {

/// What a node is: its edges in the order in which their successors were
/// first seen, each a successor with its weight, and the total weight that
/// the node keeps beside them.
pub struct NodeModel {
    pub edges: Seq<(Seq<char>, int)>,
    pub total: int,
}

/// The sum of the weights of `edges`.
pub open spec fn sum_weights(edges: Seq<(Seq<char>, int)>) -> int
    decreases edges.len(),
{
    if edges.len() == 0 {
        0
    } else {
        sum_weights(edges.drop_last()) + edges.last().1
    }
}

/// The successor that the draw selects among `edges`: the first edge at which
/// the running sum of the weights reaches `draw`.
pub open spec fn select_edge(edges: Seq<(Seq<char>, int)>, draw: int) -> Seq<char>
    decreases edges.len(),
{
    if edges.len() == 0 {
        seq![]
    } else if draw > sum_weights(edges.drop_last()) {
        edges.last().0
    } else {
        select_edge(edges.drop_last(), draw)
    }
}

impl NodeModel {
    /// The node without edges.
    pub open spec fn empty() -> NodeModel {
        NodeModel { edges: seq![], total: 0 }
    }

    /// The successors, in the order in which they were first seen.
    pub open spec fn successors(self) -> Seq<Seq<char>> {
        self.edges.map_values(|edge: (Seq<char>, int)| edge.0)
    }

    /// The weight of the edge to `word`: 0 when there is none.
    pub open spec fn weight(self, word: Seq<char>) -> int {
        if self.successors().contains(word) {
            self.edges[self.successors().index_of(word)].1
        } else {
            0
        }
    }

    /// No successor stands twice, every weight is positive, and the total is
    /// the sum of the weights.
    pub open spec fn well_formed(self) -> bool {
        &&& self.successors().no_duplicates()
        &&& forall|i: int| 0 <= i < self.edges.len() ==> (#[trigger] self.edges[i]).1 >= 1
        &&& self.total == sum_weights(self.edges)
    }

    /// The node after one more sighting of `word` as a successor: its edge
    /// gains 1, or is added with weight 1, and the total gains 1.
    pub open spec fn strengthen(self, word: Seq<char>) -> NodeModel {
        if self.successors().contains(word) {
            let i = self.successors().index_of(word);
            NodeModel {
                edges: self.edges.update(i, (word, self.edges[i].1 + 1)),
                total: self.total + 1,
            }
        } else {
            NodeModel { edges: self.edges.push((word, 1)), total: self.total + 1 }
        }
    }

    /// The successor that `draw` selects.
    pub open spec fn select(self, draw: int) -> Seq<char> {
        select_edge(self.edges, draw)
    }

    /// The draws between 1 and the total weight that select `word`.
    pub open spec fn draws_for(self, word: Seq<char>) -> Set<int> {
        Set::new(|draw: int| 1 <= draw <= self.total && self.select(draw) == word)
    }
}

/// The sum over a prefix grows with the prefix when no weight is negative.
pub proof fn lemma_sum_prefix(edges: Seq<(Seq<char>, int)>, i: int, j: int)
    requires
        0 <= i <= j <= edges.len(),
        forall|k: int| 0 <= k < edges.len() ==> (#[trigger] edges[k]).1 >= 0,
    ensures
        sum_weights(edges.take(i)) <= sum_weights(edges.take(j)),
    decreases j - i,
{
    if i < j {
        lemma_sum_prefix(edges, i, j - 1);
        assert(edges.take(j).drop_last() == edges.take(j - 1));
    }
}

/// The sum over a prefix is not negative and not above the sum over all
/// edges when no weight is negative, and the next edge adds its weight.
pub proof fn lemma_prefix_sums(edges: Seq<(Seq<char>, int)>, i: int)
    requires
        0 <= i <= edges.len(),
        forall|k: int| 0 <= k < edges.len() ==> (#[trigger] edges[k]).1 >= 0,
    ensures
        0 <= sum_weights(edges.take(i)) <= sum_weights(edges),
        i < edges.len() ==> sum_weights(edges.take(i + 1)) == sum_weights(edges.take(i))
            + edges[i].1,
{
    assert(edges.take(0).len() == 0);
    assert(edges.take(edges.len() as int) == edges);
    lemma_sum_prefix(edges, 0, i);
    lemma_sum_prefix(edges, i, edges.len() as int);
    if i < edges.len() {
        assert(edges.take(i + 1).drop_last() == edges.take(i));
    }
}

/// Raising the weight of one edge raises the sum by as much.
pub proof fn lemma_sum_update(edges: Seq<(Seq<char>, int)>, i: int, edge: (Seq<char>, int))
    requires
        0 <= i < edges.len(),
    ensures
        sum_weights(edges.update(i, edge)) == sum_weights(edges) - edges[i].1 + edge.1,
    decreases edges.len(),
{
    let updated = edges.update(i, edge);
    if i == edges.len() - 1 {
        assert(updated.drop_last() == edges.drop_last());
    } else {
        lemma_sum_update(edges.drop_last(), i, edge);
        assert(updated.drop_last() == edges.drop_last().update(i, edge));
    }
}

/// A draw selects the edge at `i` when it lies above the sum of the weights
/// before `i` and not above that sum with the weight at `i` added.
pub proof fn lemma_select_interval(edges: Seq<(Seq<char>, int)>, draw: int, i: int)
    requires
        0 <= i < edges.len(),
        forall|k: int| 0 <= k < edges.len() ==> (#[trigger] edges[k]).1 >= 0,
        sum_weights(edges.take(i)) < draw <= sum_weights(edges.take(i + 1)),
    ensures
        select_edge(edges, draw) == edges[i].0,
    decreases edges.len(),
{
    let n = edges.len() as int;
    assert(edges.drop_last() == edges.take(n - 1));
    if i == n - 1 {
    } else {
        lemma_sum_prefix(edges, i + 1, n - 1);
        let front = edges.drop_last();
        assert(front.take(i) == edges.take(i));
        assert(front.take(i + 1) == edges.take(i + 1));
        lemma_select_interval(front, draw, i);
    }
}

/// A draw between 1 and the sum of the weights selects one of the edges.
pub proof fn lemma_select_position(edges: Seq<(Seq<char>, int)>, draw: int) -> (i: int)
    requires
        forall|k: int| 0 <= k < edges.len() ==> (#[trigger] edges[k]).1 >= 0,
        1 <= draw <= sum_weights(edges),
    ensures
        0 <= i < edges.len(),
        sum_weights(edges.take(i)) < draw <= sum_weights(edges.take(i + 1)),
        select_edge(edges, draw) == edges[i].0,
    decreases edges.len(),
{
    let n = edges.len() as int;
    assert(edges.take(n) == edges);
    assert(edges.drop_last() == edges.take(n - 1));
    if draw > sum_weights(edges.drop_last()) {
        n - 1
    } else {
        let front = edges.drop_last();
        let i = lemma_select_position(front, draw);
        assert(front.take(i) == edges.take(i));
        assert(front.take(i + 1) == edges.take(i + 1));
        i
    }
}

/// A node stays well formed when an edge is strengthened: in particular its
/// total weight stays the sum of the weights of its edges.
pub proof fn lemma_strengthen_well_formed(node: NodeModel, word: Seq<char>)
    requires
        node.well_formed(),
    ensures
        node.strengthen(word).well_formed(),
{
    let after = node.strengthen(word);
    if node.successors().contains(word) {
        let i = node.successors().index_of(word);
        lemma_sum_update(node.edges, i, (word, node.edges[i].1 + 1));
        assert(after.successors() =~= node.successors());
    } else {
        assert(after.edges.drop_last() == node.edges);
        assert(after.successors() =~= node.successors().push(word));
    }
}

/// Strengthening the edge to `word` raises the weight of that edge by 1 and
/// leaves the weight of every other edge as it was.
pub proof fn lemma_strengthen_weight(node: NodeModel, word: Seq<char>, other: Seq<char>)
    requires
        node.well_formed(),
    ensures
        node.strengthen(word).weight(other) == node.weight(other) + (if other == word {
            1int
        } else {
            0int
        }),
{
    let after = node.strengthen(word);
    lemma_strengthen_well_formed(node, word);
    if node.successors().contains(word) {
        let i = node.successors().index_of(word);
        assert(after.successors() =~= node.successors());
        if node.successors().contains(other) {
            let j = node.successors().index_of(other);
            assert(after.successors()[j] == other);
        }
    } else {
        assert(after.successors() =~= node.successors().push(word));
        let n = node.edges.len() as int;
        assert(after.successors()[n] == word);
        if other == word {
            assert(after.successors().index_of(word) == n);
        } else if node.successors().contains(other) {
            let j = node.successors().index_of(other);
            assert(after.successors()[j] == other);
            assert(after.successors().index_of(other) == j);
        } else {
            if after.successors().contains(other) {
                let j = after.successors().index_of(other);
                assert(node.successors()[j] == other);
            }
        }
    }
}

/// The draws that select the successor of an edge are as many as the weight
/// of the edge.
pub proof fn lemma_draws_per_edge(node: NodeModel, i: int)
    requires
        node.well_formed(),
        0 <= i < node.edges.len(),
    ensures
        node.draws_for(node.edges[i].0).finite(),
        node.draws_for(node.edges[i].0).len() == node.edges[i].1,
        node.weight(node.edges[i].0) == node.edges[i].1,
{
    let edges = node.edges;
    let word = edges[i].0;
    let low = sum_weights(edges.take(i));
    let high = sum_weights(edges.take(i + 1));
    lemma_prefix_sums(edges, i);
    lemma_prefix_sums(edges, i + 1);
    assert(node.successors()[i] == word);
    assert(node.successors().index_of(word) == i);
    let range = vstd::set_lib::set_int_range(low + 1, high + 1);
    assert forall|draw: int| node.draws_for(word).contains(draw) implies range.contains(draw) by {
        let j = lemma_select_position(edges, draw);
        assert(node.successors()[j] == edges[j].0);
        assert(j == i);
    }
    assert forall|draw: int| range.contains(draw) implies node.draws_for(word).contains(draw) by {
        lemma_select_interval(edges, draw, i);
    }
    assert(node.draws_for(word) =~= range);
    vstd::set_lib::lemma_int_range(low + 1, high + 1);
}

/// The total weight of a well-formed node is positive exactly when the node
/// has an edge.
pub proof fn lemma_total_positive(node: NodeModel)
    requires
        node.well_formed(),
    ensures
        node.total >= 0,
        node.total > 0 <==> node.edges.len() > 0,
{
    lemma_prefix_sums(node.edges, 0);
    if node.edges.len() > 0 {
        lemma_prefix_sums(node.edges, 1);
        assert(node.edges[0].1 >= 1);
    }
}

/// Some draw selects a word to which an edge leads.
pub proof fn lemma_edge_has_draw(node: NodeModel, word: Seq<char>) -> (draw: int)
    requires
        node.well_formed(),
        node.weight(word) >= 1,
    ensures
        1 <= draw <= node.total,
        node.select(draw) == word,
{
    let edges = node.edges;
    let i = node.successors().index_of(word);
    assert(node.successors()[i] == word);
    lemma_prefix_sums(edges, i);
    lemma_prefix_sums(edges, i + 1);
    let draw = sum_weights(edges.take(i + 1));
    lemma_select_interval(edges, draw, i);
    draw
}

/// No draw selects a word to which no edge leads.
pub proof fn lemma_no_draw_without_edge(node: NodeModel, word: Seq<char>)
    requires
        node.well_formed(),
        node.weight(word) == 0,
    ensures
        node.draws_for(word) =~= Set::<int>::empty(),
{
    assert forall|draw: int| !node.draws_for(word).contains(draw) by {
        if 1 <= draw <= node.total && node.select(draw) == word {
            let j = lemma_select_position(node.edges, draw);
            assert(node.successors()[j] == word);
            let k = node.successors().index_of(word);
            assert(node.edges[k].1 >= 1);
        }
    }
}

/// The number of draws that select a word is the weight of the edge to it:
/// a draw that is uniform between 1 and the total weight selects each word
/// with the chance of its weight in the total, in whatever order the edges
/// stand.
pub proof fn lemma_draws_match_weight(node: NodeModel, word: Seq<char>)
    requires
        node.well_formed(),
    ensures
        node.draws_for(word).finite(),
        node.draws_for(word).len() == node.weight(word),
{
    if node.successors().contains(word) {
        let i = node.successors().index_of(word);
        assert(node.successors()[i] == word);
        lemma_draws_per_edge(node, i);
    } else {
        lemma_no_draw_without_edge(node, word);
    }
}

/// The successors seen after one word, with the number of times each was
/// seen, and the sum of those numbers.
pub struct Node {
    successors: WordTable,
    weights: Vec<i32>,
    sum: i32,
}

impl View for Node {
    type V = NodeModel;

    closed spec fn view(&self) -> NodeModel {
        NodeModel {
            edges: Seq::new(
                self.weights.len() as nat,
                |i: int| (self.successors@[i], self.weights[i] as int),
            ),
            total: self.sum as int,
        }
    }
}

impl Node {
    /// The representation is sound and the node it stands for is well formed.
    pub closed spec fn wf(&self) -> bool {
        &&& self.successors.wf()
        &&& self.successors@.len() == self.weights.len()
        &&& self@.well_formed()
    }

    /// A well-formed node stands for a well-formed model: in particular its
    /// total weight is the sum of the weights of its edges.
    pub proof fn lemma_well_formed(&self)
        requires
            self.wf(),
        ensures
            self@.well_formed(),
            self@.total == sum_weights(self@.edges),
    {
    }

    /// A node without edges.
    pub fn new() -> (node: Node)
        ensures
            node.wf(),
            node@ == NodeModel::empty(),
    {
        let node = Node { successors: WordTable::new(), weights: Vec::new(), sum: 0 };
        proof {
            assert(node@.edges == Seq::<(Seq<char>, int)>::empty());
        }
        node
    }

    /// The total weight of the edges.
    pub fn total_weight(&self) -> (total: i32)
        ensures
            total == self@.total,
    {
        self.sum
    }

    /// The number of edges.
    pub fn len(&self) -> (n: usize)
        requires
            self.wf(),
        ensures
            n == self@.edges.len(),
    {
        self.weights.len()
    }

    /// The successor of the edge at position `i`.
    pub fn successor(&self, i: usize) -> (word: &String)
        requires
            self.wf(),
            i < self@.edges.len(),
        ensures
            word@ == self@.edges[i as int].0,
    {
        self.successors.get(i)
    }

    /// The weight of the edge to `word`: 0 when there is none.
    pub fn weight(&self, word: &str) -> (weight: i32)
        requires
            self.wf(),
        ensures
            weight == self@.weight(word@),
    {
        proof {
            assert(self.successors@ =~= self@.successors());
            self.successors.lemma_distinct();
        }
        match self.successors.find(word) {
            Some(i) => {
                proof {
                    assert(self@.successors()[i as int] == word@);
                    assert(self@.successors().index_of(word@) == i);
                }
                self.weights[i]
            },
            None => 0,
        }
    }

    /// The successor that `draw` selects, for a draw between 1 and the total
    /// weight.
    pub fn pick(&self, draw: i32) -> (word: &String)
        requires
            self.wf(),
            1 <= draw <= self@.total,
        ensures
            word@ == self@.select(draw as int),
            self@.weight(word@) >= 1,
    {
        let ghost edges = self@.edges;
        let mut running: i32 = draw;
        let mut i: usize = 0;
        proof {
            lemma_prefix_sums(edges, 0);
        }
        loop
            invariant
                self.wf(),
                edges == self@.edges,
                i < edges.len(),
                1 <= running <= draw <= self@.total,
                running == draw - sum_weights(edges.take(i as int)),
            decreases edges.len() - i,
        {
            proof {
                lemma_prefix_sums(edges, i as int);
                lemma_prefix_sums(edges, i as int + 1);
                assert(edges[i as int].1 >= 1);
            }
            running = running - self.weights[i];
            if running <= 0 {
                proof {
                    lemma_select_interval(edges, draw as int, i as int);
                    assert(self@.successors()[i as int] == edges[i as int].0);
                    assert(self@.successors().index_of(edges[i as int].0) == i);
                }
                return self.successors.get(i);
            }
            i = i + 1;
        }
    }

    /// A successor drawn at random, each with a chance in proportion to its
    /// weight; `DeadEnd` when the node has no edge.
    pub fn next(&self, rng: &mut StdRng) -> (step: Result<String, GenerationError>)
        requires
            self.wf(),
        ensures
            match step {
                Ok(word) => self@.weight(word@) >= 1 && exists|draw: int|
                    1 <= draw <= self@.total && word@ == #[trigger] self@.select(draw),
                Err(error) => error == GenerationError::DeadEnd && self@.total == 0,
            },
    {
        if self.sum < 1 {
            proof {
                lemma_prefix_sums(self@.edges, 0);
            }
            return Err(GenerationError::DeadEnd);
        }
        let draw = draw_between(rng, 1, self.sum);
        let word = self.pick(draw).clone();
        Ok(word)
    }

    /// Records one more sighting of `next` as a successor.
    pub fn strengthen_edge(&mut self, next: String)
        requires
            old(self).wf(),
            old(self)@.total < i32::MAX,
        ensures
            final(self).wf(),
            final(self)@ == old(self)@.strengthen(next@),
            final(self)@.total == sum_weights(final(self)@.edges),
    {
        let ghost before = self@;
        proof {
            assert(self.successors@ =~= before.successors());
            self.successors.lemma_distinct();
            lemma_strengthen_well_formed(before, next@);
        }
        match self.successors.find(next.as_str()) {
            Some(i) => {
                proof {
                    lemma_prefix_sums(before.edges, i as int);
                    lemma_prefix_sums(before.edges, i as int + 1);
                    assert(before.successors()[i as int] == next@);
                }
                let weight = self.weights[i];
                self.weights.set(i, weight + 1);
                self.sum = self.sum + 1;
                proof {
                    assert(self@.edges =~= before.strengthen(next@).edges);
                }
            },
            None => {
                self.successors.insert(next);
                self.weights.push(1);
                self.sum = self.sum + 1;
                proof {
                    assert(self@.edges =~= before.strengthen(next@).edges);
                }
            },
        }
    }
}

} // verus!
