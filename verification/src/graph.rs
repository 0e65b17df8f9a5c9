//! The transition graph: one node for every word seen, and the words that
//! may open a sentence.

use crate::error::GenerationError;
use crate::node::{lemma_prefix_sums, lemma_strengthen_well_formed, Node, NodeModel};
use crate::random::choose_word;
use crate::table::WordTable;
use crate::words::{
    ends_sentence, is_entry_word, is_terminal, join, join_words, lemma_join_ends, split,
    split_words, starts_uppercase,
};
use rand::rngs::StdRng;
use vstd::prelude::*;

verus! {

/// What a graph is: the node of every word seen, and the entry words in the
/// order in which they were first seen.
pub struct GraphModel {
    pub nodes: Map<Seq<char>, NodeModel>,
    pub entries: Seq<Seq<char>>,
}

impl GraphModel {
    /// The graph without nodes.
    pub open spec fn empty() -> GraphModel {
        GraphModel { nodes: Map::empty(), entries: seq![] }
    }

    /// Whether `word` has a node.
    pub open spec fn has_node(self, word: Seq<char>) -> bool {
        self.nodes.contains_key(word)
    }

    /// The weight of the edge from `from` to `to`: 0 when there is none.
    pub open spec fn weight(self, from: Seq<char>, to: Seq<char>) -> int {
        if self.has_node(from) {
            self.nodes[from].weight(to)
        } else {
            0
        }
    }

    /// The total weight of the edges that leave `word`: 0 when it has no node.
    pub open spec fn total_weight(self, word: Seq<char>) -> int {
        if self.has_node(word) {
            self.nodes[word].total
        } else {
            0
        }
    }

    /// Every node is well formed, every successor has a node of its own, and
    /// the entry words are the nodes that may open a sentence, each listed
    /// once.
    pub open spec fn well_formed(self) -> bool {
        &&& forall|word: Seq<char>| #[trigger]
            self.has_node(word) ==> self.nodes[word].well_formed()
        &&& forall|word: Seq<char>, i: int|
            self.has_node(word) && 0 <= i < self.nodes[word].edges.len() ==> self.has_node(
                (#[trigger] self.nodes[word].edges[i]).0,
            )
        &&& forall|i: int|
            0 <= i < self.entries.len() ==> self.has_node(#[trigger] self.entries[i])
                && is_entry_word(self.entries[i])
        &&& self.entries.no_duplicates()
        &&& forall|word: Seq<char>|
            self.has_node(word) && is_entry_word(word) ==> #[trigger] self.entries.contains(word)
    }

    /// The graph after `word` was read behind `last`. A word read for the
    /// first time gets a node, and a place among the entry words if it may
    /// open a sentence. The edge from `last` to `word` gains 1.
    pub open spec fn add(self, word: Seq<char>, last: Option<Seq<char>>) -> GraphModel {
        let fresh = !self.has_node(word);
        let nodes = if fresh {
            self.nodes.insert(word, NodeModel::empty())
        } else {
            self.nodes
        };
        GraphModel {
            nodes: match last {
                Some(from) => nodes.insert(from, nodes[from].strengthen(word)),
                None => nodes,
            },
            entries: if fresh && is_entry_word(word) {
                self.entries.push(word)
            } else {
                self.entries
            },
        }
    }

    /// Whether `word` may be read behind `last`: `last` has a node by then,
    /// and the total weight of that node can still grow.
    pub open spec fn admits(self, word: Seq<char>, last: Option<Seq<char>>) -> bool {
        last matches Some(from) ==> (self.has_node(from) || from == word) && self.total_weight(from)
            < i32::MAX
    }

    /// The word read before the last of `words`, if there is one.
    pub open spec fn previous(words: Seq<Seq<char>>) -> Option<Seq<char>> {
        if words.len() >= 2 {
            Some(words[words.len() - 2])
        } else {
            None
        }
    }

    /// The graph after the words of one text were read in order. The first
    /// word is read behind no other.
    pub open spec fn read(self, words: Seq<Seq<char>>) -> GraphModel
        decreases words.len(),
    {
        if words.len() == 0 {
            self
        } else {
            self.read(words.drop_last()).add(words.last(), Self::previous(words))
        }
    }

    /// The graph after the texts were read in order, each from its first
    /// word on: no edge leads from the last word of one text to the first
    /// word of the next.
    pub open spec fn read_texts(self, texts: Seq<Seq<char>>) -> GraphModel
        decreases texts.len(),
    {
        if texts.len() == 0 {
            self
        } else {
            self.read_texts(texts.drop_last()).read(split_words(texts.last()))
        }
    }

    /// Whether the total weight of every node can still grow by `n`.
    pub open spec fn room_for(self, n: int) -> bool {
        forall|word: Seq<char>| #[trigger] self.total_weight(word) + n <= i32::MAX
    }

    /// Whether an edge leads from `from` to `to`.
    pub open spec fn has_edge(self, from: Seq<char>, to: Seq<char>) -> bool {
        self.weight(from, to) >= 1
    }

    /// A walk starts at an entry word and follows an edge at every step; no
    /// word before its last closes a sentence.
    pub open spec fn is_walk(self, path: Seq<Seq<char>>) -> bool {
        &&& path.len() >= 1
        &&& self.entries.contains(path[0])
        &&& forall|i: int|
            0 <= i < path.len() - 1 ==> !is_terminal(#[trigger] path[i]) && self.has_edge(
                path[i],
                path[i + 1],
            )
    }

    /// A walk whose last word closes a sentence.
    pub open spec fn is_sentence(self, path: Seq<Seq<char>>) -> bool {
        self.is_walk(path) && is_terminal(path.last())
    }

    /// A walk whose last word closes no sentence and has no successor.
    pub open spec fn is_dead_end(self, path: Seq<Seq<char>>) -> bool {
        self.is_walk(path) && !is_terminal(path.last()) && self.total_weight(path.last()) == 0
    }

    /// A walk whose last word closes no sentence and has a successor.
    pub open spec fn is_open_walk(self, path: Seq<Seq<char>>) -> bool {
        self.is_walk(path) && !is_terminal(path.last()) && self.total_weight(path.last()) > 0
    }

    /// What a random walk of at most `max_steps` steps may come to: a
    /// sentence with its words joined by single spaces; `NoEntryWords` when
    /// no word may open a sentence; `DeadEnd` at the end of a walk that cannot
    /// go on; `TooLong` at the end of a walk of `max_steps` steps that has
    /// not closed a sentence and could go on.
    pub open spec fn may_yield(
        self,
        max_steps: int,
        outcome: Result<Seq<char>, GenerationError>,
    ) -> bool {
        match outcome {
            Ok(text) => exists|path: Seq<Seq<char>>| #[trigger]
                self.is_sentence(path) && path.len() <= max_steps + 1 && text == join_words(path),
            Err(GenerationError::NoEntryWords) => self.entries.len() == 0,
            Err(GenerationError::DeadEnd) => exists|path: Seq<Seq<char>>| #[trigger]
                self.is_dead_end(path) && path.len() <= max_steps + 1,
            Err(GenerationError::TooLong) => exists|path: Seq<Seq<char>>| #[trigger]
                self.is_open_walk(path) && path.len() == max_steps + 1,
        }
    }
}

/// The number of words in all of `texts`.
pub open spec fn count_words(texts: Seq<Seq<char>>) -> int
    decreases texts.len(),
{
    if texts.len() == 0 {
        0
    } else {
        count_words(texts.drop_last()) + split_words(texts.last()).len()
    }
}

/// The view of the outcome of a walk.
pub open spec fn outcome_view(outcome: Result<String, GenerationError>) -> Result<
    Seq<char>,
    GenerationError,
> {
    match outcome {
        Ok(text) => Ok(text@),
        Err(error) => Err(error),
    }
}

/// The word to which an edge leads has a node of its own.
pub proof fn lemma_edge_target(graph: GraphModel, from: Seq<char>, to: Seq<char>)
    requires
        graph.well_formed(),
        graph.has_edge(from, to),
    ensures
        graph.has_node(from),
        graph.has_node(to),
{
    let node = graph.nodes[from];
    let i = node.successors().index_of(to);
    assert(node.successors()[i] == to);
    assert(node.edges[i].0 == to);
}

/// Every word of a walk has a node.
pub proof fn lemma_walk_nodes(graph: GraphModel, path: Seq<Seq<char>>, i: int)
    requires
        graph.well_formed(),
        graph.is_walk(path),
        0 <= i < path.len(),
    ensures
        graph.has_node(path[i]),
{
    if i == 0 {
        let k = choose|k: int| 0 <= k < graph.entries.len() && graph.entries[k] == path[0];
        assert(graph.has_node(graph.entries[k]));
    } else {
        assert(graph.has_edge(path[i - 1], path[i]));
        lemma_edge_target(graph, path[i - 1], path[i]);
    }
}

/// The empty graph is well formed.
pub proof fn lemma_empty_well_formed()
    ensures
        GraphModel::empty().well_formed(),
{
}

/// A graph stays well formed when a word is read behind a word that has a
/// node by then: in particular the total weight of every node stays the sum
/// of the weights of its edges.
pub proof fn lemma_add_well_formed(graph: GraphModel, word: Seq<char>, last: Option<Seq<char>>)
    requires
        graph.well_formed(),
        last matches Some(from) ==> graph.has_node(from) || from == word,
    ensures
        graph.add(word, last).well_formed(),
{
    let fresh = !graph.has_node(word);
    let mid = graph.add(word, None);
    let after = graph.add(word, last);
    assert(NodeModel::empty().successors() =~= Seq::<Seq<char>>::empty());
    assert forall|w: Seq<char>| #[trigger] mid.has_node(w) implies mid.nodes[w].well_formed() by {
        if !(fresh && w == word) {
            assert(graph.has_node(w));
        }
    }
    assert forall|w: Seq<char>, i: int|
        mid.has_node(w) && 0 <= i < mid.nodes[w].edges.len() implies mid.has_node(
        (#[trigger] mid.nodes[w].edges[i]).0,
    ) by {
        assert(graph.has_node(w));
        assert(graph.has_node(graph.nodes[w].edges[i].0));
    }
    assert forall|i: int| 0 <= i < mid.entries.len() implies mid.has_node(
        #[trigger] mid.entries[i],
    ) && is_entry_word(mid.entries[i]) by {
        if i < graph.entries.len() {
            assert(mid.entries[i] == graph.entries[i]);
            assert(graph.has_node(graph.entries[i]));
        }
    }
    assert(mid.entries.no_duplicates()) by {
        if fresh && is_entry_word(word) {
            assert forall|i: int| 0 <= i < graph.entries.len() implies graph.entries[i]
                != word by {
                assert(graph.has_node(graph.entries[i]));
            }
        }
    }
    assert forall|w: Seq<char>| mid.has_node(w) && is_entry_word(w) implies #[trigger]
        mid.entries.contains(w) by {
        if fresh && w == word {
            assert(mid.entries[graph.entries.len() as int] == word);
        } else {
            assert(graph.entries.contains(w));
            let k = graph.entries.index_of(w);
            assert(mid.entries[k] == w);
        }
    }
    assert(mid.well_formed());
    if let Some(from) = last {
        let old_node = mid.nodes[from];
        let new_node = old_node.strengthen(word);
        lemma_strengthen_well_formed(old_node, word);
        assert forall|w: Seq<char>| #[trigger]
            after.has_node(w) implies after.nodes[w].well_formed() by {
            if w != from {
                assert(mid.has_node(w));
            }
        }
        assert forall|w: Seq<char>, i: int|
            after.has_node(w) && 0 <= i < after.nodes[w].edges.len() implies after.has_node(
            (#[trigger] after.nodes[w].edges[i]).0,
        ) by {
            if w != from {
                assert(mid.has_node(w));
                assert(mid.has_node(mid.nodes[w].edges[i].0));
            } else if i < old_node.edges.len() {
                assert(new_node.edges[i].0 == old_node.edges[i].0);
                assert(mid.has_node(old_node.edges[i].0));
            }
        }
        assert forall|i: int| 0 <= i < after.entries.len() implies after.has_node(
            #[trigger] after.entries[i],
        ) && is_entry_word(after.entries[i]) by {
            assert(mid.has_node(mid.entries[i]));
        }
        assert forall|w: Seq<char>| after.has_node(w) && is_entry_word(w) implies #[trigger]
            after.entries.contains(w) by {
            assert(mid.has_node(w));
            assert(mid.entries.contains(w));
        }
    }
}

/// Reading one word raises no total weight by more than 1, and gives the
/// word a node.
pub proof fn lemma_add_total(
    graph: GraphModel,
    word: Seq<char>,
    last: Option<Seq<char>>,
    other: Seq<char>,
)
    requires
        last matches Some(from) ==> graph.has_node(from) || from == word,
    ensures
        graph.add(word, last).has_node(word),
        graph.add(word, last).total_weight(other) <= graph.total_weight(other) + 1,
        graph.add(word, last).total_weight(other) >= graph.total_weight(other),
{
}

/// A graph with room for one word and `n` more has room for `n` after a
/// word was read.
pub proof fn lemma_add_room(
    graph: GraphModel,
    word: Seq<char>,
    last: Option<Seq<char>>,
    n: int,
)
    requires
        graph.room_for(n + 1),
        last matches Some(from) ==> graph.has_node(from) || from == word,
    ensures
        graph.add(word, last).room_for(n),
{
    let after = graph.add(word, last);
    assert forall|other: Seq<char>| #[trigger] after.total_weight(other) + n <= i32::MAX by {
        lemma_add_total(graph, word, last, other);
        assert(graph.total_weight(other) + (n + 1) <= i32::MAX);
    }
}

/// A graph with room for the words of a text and `n` more has room for `n`
/// after the text was read, and holds a node for its last word.
pub proof fn lemma_read_room(graph: GraphModel, words: Seq<Seq<char>>, n: int)
    requires
        graph.room_for(words.len() + n),
    ensures
        graph.read(words).room_for(n),
        words.len() > 0 ==> graph.read(words).has_node(words.last()),
    decreases words.len(),
{
    if words.len() > 0 {
        let front = words.drop_last();
        lemma_read_room(graph, front, n + 1);
        let mid = graph.read(front);
        lemma_add_room(mid, words.last(), GraphModel::previous(words), n);
        lemma_add_total(mid, words.last(), GraphModel::previous(words), words.last());
    }
}

/// The words of the first `i` texts are the words of the texts before the
/// last of them and those of that last one.
pub proof fn lemma_count_prefix(texts: Seq<Seq<char>>, i: int)
    requires
        0 <= i <= texts.len(),
    ensures
        0 <= count_words(texts.take(i)) <= count_words(texts),
        i > 0 ==> count_words(texts.take(i)) == count_words(texts.take(i - 1)) + split_words(
            texts[i - 1],
        ).len(),
    decreases texts.len() - i,
{
    if i > 0 {
        assert(texts.take(i).drop_last() == texts.take(i - 1));
    }
    lemma_count_nonnegative(texts.take(i));
    if i < texts.len() {
        lemma_count_prefix(texts, i + 1);
    } else {
        assert(texts.take(i) == texts);
    }
}

/// No texts hold fewer than no words.
pub proof fn lemma_count_nonnegative(texts: Seq<Seq<char>>)
    ensures
        count_words(texts) >= 0,
    decreases texts.len(),
{
    if texts.len() > 0 {
        lemma_count_nonnegative(texts.drop_last());
    }
}

/// A graph with room for `n` has room for less.
pub proof fn lemma_room_less(graph: GraphModel, n: int, m: int)
    requires
        graph.room_for(n),
        m <= n,
    ensures
        graph.room_for(m),
{
    assert forall|w: Seq<char>| #[trigger] graph.total_weight(w) + m <= i32::MAX by {
        assert(graph.total_weight(w) + n <= i32::MAX);
    }
}

/// The transition graph of the words read so far.
pub struct Graph {
    names: WordTable,
    nodes: Vec<Node>,
    entry_words: Vec<String>,
}

impl View for Graph {
    type V = GraphModel;

    closed spec fn view(&self) -> GraphModel {
        GraphModel {
            nodes: Map::new(
                |word: Seq<char>| self.names@.contains(word),
                |word: Seq<char>| self.nodes[self.names@.index_of(word)]@,
            ),
            entries: self.entry_words.deep_view(),
        }
    }
}

impl Graph {
    /// The representation is sound and the graph it stands for is well formed.
    pub closed spec fn wf(&self) -> bool {
        &&& self.names.wf()
        &&& self.names@.len() == self.nodes.len()
        &&& forall|i: int| 0 <= i < self.nodes.len() ==> (#[trigger] self.nodes[i]).wf()
        &&& self@.well_formed()
    }

    /// A well-formed graph stands for a well-formed model.
    pub proof fn lemma_well_formed(&self)
        requires
            self.wf(),
        ensures
            self@.well_formed(),
    {
    }

    /// A graph without nodes.
    pub fn new() -> (graph: Graph)
        ensures
            graph.wf(),
            graph@ == GraphModel::empty(),
    {
        let graph = Graph { names: WordTable::new(), nodes: Vec::new(), entry_words: Vec::new() };
        proof {
            assert(graph@.nodes =~= Map::<Seq<char>, NodeModel>::empty());
            assert(graph@.entries =~= Seq::<Seq<char>>::empty());
        }
        graph
    }

    /// The node at position `i` is the node of the word at position `i`.
    proof fn lemma_node_at(&self, i: int)
        requires
            self.names.wf(),
            self.names@.len() == self.nodes.len(),
            0 <= i < self.nodes.len(),
        ensures
            self.names@.index_of(self.names@[i]) == i,
            self@.has_node(self.names@[i]),
            self@.nodes[self.names@[i]] == self.nodes[i]@,
    {
        self.names.lemma_distinct();
    }

    /// Reads `word` behind `last_word`, or as the first word of a text when
    /// there is none.
    pub fn add(&mut self, word: String, last_word: Option<String>)
        requires
            old(self).wf(),
            old(self)@.admits(word@, last_word.deep_view()),
        ensures
            final(self).wf(),
            final(self)@ == old(self)@.add(word@, last_word.deep_view()),
            final(self)@.well_formed(),
    {
        let ghost before = self@;
        let ghost fresh = !before.has_node(word@);
        proof {
            self.names.lemma_distinct();
        }
        match self.names.find(word.as_str()) {
            Some(_) => {},
            None => {
                let ghost old_names = self.names@;
                self.names.insert(word.clone());
                self.nodes.push(Node::new());
                if starts_uppercase(word.as_str()) {
                    self.entry_words.push(word.clone());
                }
                proof {
                    self.names.lemma_distinct();
                    assert forall|w: Seq<char>| old_names.contains(w) implies self.names@.index_of(
                        w,
                    ) == old_names.index_of(w) by {
                        let j = old_names.index_of(w);
                        assert(self.names@[j] == w);
                    }
                    assert(self.names@[old_names.len() as int] == word@);
                    assert(self.names@.index_of(word@) == old_names.len());
                    let grown = before.nodes.insert(word@, NodeModel::empty());
                    assert forall|w: Seq<char>|
                        self@.nodes.contains_key(w) implies grown.contains_key(w)
                        && #[trigger] self@.nodes[w] == grown[w] by {
                        let j = self.names@.index_of(w);
                        assert(self.names@[j] == w);
                        if j < old_names.len() {
                            assert(old_names[j] == w);
                            assert(old_names.index_of(w) == j);
                        }
                    }
                    assert forall|w: Seq<char>|
                        grown.contains_key(w) implies self@.nodes.contains_key(w) by {
                        if w != word@ {
                            let j = old_names.index_of(w);
                            assert(self.names@[j] == w);
                        }
                    }
                    assert(self@.nodes =~= grown);
                    assert(self@.entries =~= if is_entry_word(word@) {
                        before.entries.push(word@)
                    } else {
                        before.entries
                    });
                    assert(NodeModel::empty().successors() =~= Seq::<Seq<char>>::empty());
                }
            },
        }
        let ghost mid = self@;
        proof {
            assert(mid == before.add(word@, None));
            lemma_add_well_formed(before, word@, None);
            lemma_add_well_formed(before, word@, last_word.deep_view());
        }
        if let Some(last) = last_word {
            match self.names.find(last.as_str()) {
                Some(from) => {
                    proof {
                        self.lemma_node_at(from as int);
                    }
                    let ghost old_node = self.nodes[from as int]@;
                    self.nodes[from].strengthen_edge(word);
                    proof {
                        assert(self@.nodes =~= mid.nodes.insert(last@, old_node.strengthen(word@)));
                    }
                },
                None => {},
            }
        }
    }

    /// The number of nodes.
    pub fn len(&self) -> (n: usize)
        requires
            self.wf(),
        ensures
            self@.nodes.dom().finite(),
            n == self@.nodes.dom().len(),
    {
        proof {
            self.names.lemma_distinct();
            self.names@.unique_seq_to_set();
            vstd::seq_lib::seq_to_set_is_finite(self.names@);
            assert(self@.nodes.dom() =~= self.names@.to_set());
        }
        self.names.len()
    }

    /// The number of words that can still be read before a total weight
    /// would leave the range of the machine's numbers.
    pub fn room(&self) -> (room: i32)
        requires
            self.wf(),
        ensures
            0 <= room,
            forall|n: int| self@.room_for(n) <==> n <= room,
    {
        let mut heaviest: i32 = 0;
        let ghost mut witness: Seq<char> = seq![];
        let mut i: usize = 0;
        proof {
            self.names.lemma_distinct();
        }
        while i < self.nodes.len()
            invariant
                self.wf(),
                i <= self.nodes.len(),
                0 <= heaviest,
                forall|k: int| 0 <= k < i ==> (#[trigger] self.nodes[k])@.total <= heaviest,
                heaviest == 0 || self@.total_weight(witness) == heaviest,
            decreases self.nodes.len() - i,
        {
            let total = self.nodes[i].total_weight();
            if total > heaviest {
                heaviest = total;
                proof {
                    self.lemma_node_at(i as int);
                    witness = self.names@[i as int];
                }
            }
            i = i + 1;
        }
        proof {
            let room = i32::MAX - heaviest;
            assert forall|n: int| n <= room implies self@.room_for(n) by {
                assert forall|w: Seq<char>| #[trigger] self@.total_weight(w) + n <= i32::MAX by {
                    if self@.has_node(w) {
                        let k = self.names@.index_of(w);
                        self.lemma_node_at(k);
                        assert(self.nodes[k]@.total <= heaviest);
                    }
                }
            }
            assert forall|n: int| self@.room_for(n) implies n <= room by {
                if heaviest == 0 {
                    let w = Seq::<char>::empty();
                    assert(self@.total_weight(w) + n <= i32::MAX);
                    if self@.has_node(w) {
                        let k = self.names@.index_of(w);
                        self.lemma_node_at(k);
                        self.nodes[k].lemma_well_formed();
                        lemma_prefix_sums(self.nodes[k]@.edges, 0);
                    }
                } else {
                    assert(self@.total_weight(witness) + n <= i32::MAX);
                }
            }
        }
        i32::MAX - heaviest
    }

    /// The node of `word`, if it has one.
    pub fn node(&self, word: &str) -> (node: Option<&Node>)
        requires
            self.wf(),
        ensures
            match node {
                Some(node) => self@.has_node(word@) && node@ == self@.nodes[word@] && node.wf(),
                None => !self@.has_node(word@),
            },
    {
        match self.names.find(word) {
            Some(i) => {
                proof {
                    self.lemma_node_at(i as int);
                }
                Some(&self.nodes[i])
            },
            None => None,
        }
    }

    /// The weight of the edge from `from` to `to`: 0 when there is none.
    pub fn weight(&self, from: &str, to: &str) -> (weight: i32)
        requires
            self.wf(),
        ensures
            weight == self@.weight(from@, to@),
    {
        match self.node(from) {
            Some(node) => node.weight(to),
            None => 0,
        }
    }

    /// The words that may open a sentence, in the order in which they were
    /// first read.
    pub fn entry_words(&self) -> (entries: &Vec<String>)
        ensures
            entries.deep_view() == self@.entries,
    {
        &self.entry_words
    }

    /// An entry word drawn at random, each place among the entry words with
    /// the same chance; `NoEntryWords` when there is none.
    pub fn random_entry_word(&self, rng: &mut StdRng) -> (entry: Result<String, GenerationError>)
        ensures
            match entry {
                Ok(word) => self@.entries.contains(word@),
                Err(error) => error == GenerationError::NoEntryWords && self@.entries.len() == 0,
            },
    {
        match choose_word(&self.entry_words, rng) {
            Some(word) => {
                proof {
                    let i = choose|i: int|
                        0 <= i < self.entry_words.len() && #[trigger] self.entry_words[i]@
                            == word@;
                    assert(self@.entries[i] == word@);
                }
                Ok(word.clone())
            },
            None => Err(GenerationError::NoEntryWords),
        }
    }

    /// A random walk from an entry word to a word that closes a sentence,
    /// of at most `max_steps` steps, with its words joined by single spaces.
    pub fn generate_tweet(&self, rng: &mut StdRng, max_steps: usize) -> (tweet: Result<
        String,
        GenerationError,
    >)
        requires
            self.wf(),
        ensures
            self@.may_yield(max_steps as int, outcome_view(tweet)),
            tweet matches Ok(text) ==> is_entry_word(text@) && is_terminal(text@),
    {
        let mut current = match self.random_entry_word(rng) {
            Ok(word) => word,
            Err(error) => {
                return Err(error);
            },
        };
        let mut words: Vec<String> = Vec::new();
        words.push(current.clone());
        let mut steps: usize = 0;
        while !ends_sentence(current.as_str())
            invariant
                self.wf(),
                self@.is_walk(words.deep_view()),
                words.deep_view().last() == current@,
                words.len() == steps + 1,
                steps <= max_steps,
            decreases max_steps - steps,
        {
            let ghost path = words.deep_view();
            proof {
                lemma_walk_nodes(self@, path, path.len() - 1);
            }
            match self.names.find(current.as_str()) {
                Some(i) => {
                    proof {
                        self.lemma_node_at(i as int);
                    }
                    match self.nodes[i].next(rng) {
                        Ok(word) => {
                            if steps >= max_steps {
                                proof {
                                    assert(self.nodes[i as int]@.total >= 1);
                                    assert(self@.is_open_walk(path));
                                }
                                return Err(GenerationError::TooLong);
                            }
                            words.push(word.clone());
                            current = word;
                            steps = steps + 1;
                            proof {
                                let longer = words.deep_view();
                                assert(longer == path.push(current@));
                                assert forall|k: int|
                                    0 <= k < longer.len() - 1 implies !is_terminal(
                                    #[trigger] longer[k],
                                ) && self@.has_edge(longer[k], longer[k + 1]) by {
                                    if k < path.len() - 1 {
                                        assert(longer[k] == path[k]);
                                        assert(longer[k + 1] == path[k + 1]);
                                    }
                                }
                            }
                        },
                        Err(error) => {
                            proof {
                                assert(self@.is_dead_end(path));
                            }
                            return Err(error);
                        },
                    }
                },
                None => {
                    return Err(GenerationError::DeadEnd);
                },
            }
        }
        proof {
            let path = words.deep_view();
            assert(self@.is_sentence(path));
            let k = self@.entries.index_of(path[0]);
            assert(is_entry_word(self@.entries[k]));
            lemma_join_ends(path);
        }
        Ok(join(&words))
    }

    /// Reads the words of `text` in order, the first behind no other.
    pub fn ingest(&mut self, text: &str)
        requires
            old(self).wf(),
            old(self)@.room_for(split_words(text@).len() as int),
        ensures
            final(self).wf(),
            final(self)@ == old(self)@.read(split_words(text@)),
            final(self)@.well_formed(),
    {
        let ghost before = self@;
        let words = split(text);
        let ghost all = words.deep_view();
        let mut last_word: Option<String> = None;
        let mut i: usize = 0;
        proof {
            assert(all.take(0) =~= Seq::<Seq<char>>::empty());
        }
        while i < words.len()
            invariant
                self.wf(),
                all == words.deep_view(),
                i <= words.len(),
                self@ == before.read(all.take(i as int)),
                self@.room_for(all.len() - i),
                last_word.deep_view() == (if i == 0 {
                    None
                } else {
                    Some(all[i - 1])
                }),
                last_word matches Some(word) ==> self@.has_node(word@),
            decreases words.len() - i,
        {
            let word = words[i].clone();
            let ghost seen = all.take(i as int + 1);
            let ghost now = self@;
            proof {
                assert(seen.drop_last() == all.take(i as int));
                assert(seen.last() == word@);
                assert(last_word.deep_view() == GraphModel::previous(seen));
                if last_word is Some {
                    assert(now.total_weight(last_word->0@) + (all.len() - i) <= i32::MAX);
                }
                lemma_add_room(now, word@, last_word.deep_view(), all.len() - i - 1);
            }
            self.add(word.clone(), last_word);
            last_word = Some(word);
            i = i + 1;
        }
        proof {
            assert(all.take(all.len() as int) == all);
        }
    }
}

} // verus!
