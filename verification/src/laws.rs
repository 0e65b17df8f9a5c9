//! What holds of every graph that was built by reading texts, and of every
//! sentence drawn from it.

use crate::graph::{lemma_add_well_formed, lemma_empty_well_formed, GraphModel};
use crate::node::{lemma_edge_has_draw, lemma_strengthen_weight, sum_weights, NodeModel};
use crate::words::{
    is_entry_word, is_terminal, is_word, join_words, lemma_join_ends, lemma_split_join,
    lemma_split_words, split_words,
};
use vstd::prelude::*;

verus! {

/// The number of places in `words` at which `to` stands right behind `from`.
pub open spec fn pairs(words: Seq<Seq<char>>, from: Seq<char>, to: Seq<char>) -> int
    decreases words.len(),
{
    if words.len() < 2 {
        0
    } else {
        pairs(words.drop_last(), from, to) + (if words[words.len() - 2] == from && words.last()
            == to {
            1int
        } else {
            0int
        })
    }
}

/// The number of places in the texts at which `to` stands right behind `from`
/// within one text.
pub open spec fn pairs_in_texts(texts: Seq<Seq<char>>, from: Seq<char>, to: Seq<char>) -> int
    decreases texts.len(),
{
    if texts.len() == 0 {
        0
    } else {
        pairs_in_texts(texts.drop_last(), from, to) + pairs(split_words(texts.last()), from, to)
    }
}

impl GraphModel {
    /// Whether `path` is the walk that `draws` select: each draw lies between
    /// 1 and the total weight of the word at which it is made, and selects
    /// the next word.
    pub open spec fn follows(self, path: Seq<Seq<char>>, draws: Seq<int>) -> bool {
        &&& path.len() == draws.len() + 1
        &&& forall|i: int|
            0 <= i < draws.len() ==> 1 <= #[trigger] draws[i] <= self.total_weight(path[i])
                && path[i + 1] == self.nodes[path[i]].select(draws[i])
    }

    /// Every node stands for a word: a text without whitespace that is not
    /// empty.
    pub open spec fn only_words(self) -> bool {
        forall|word: Seq<char>| #[trigger] self.has_node(word) ==> is_word(word)
    }
}

/// In a well-formed graph the total weight of every node is the sum of the
/// weights of its edges.
pub proof fn lemma_total_is_sum(graph: GraphModel, word: Seq<char>)
    requires
        graph.well_formed(),
        graph.has_node(word),
    ensures
        graph.total_weight(word) == sum_weights(graph.nodes[word].edges),
{
}

/// Reading one word gives it a node, keeps the nodes that were there, and
/// adds no other.
pub proof fn lemma_add_nodes(
    graph: GraphModel,
    word: Seq<char>,
    last: Option<Seq<char>>,
    other: Seq<char>,
)
    requires
        last matches Some(from) ==> graph.has_node(from) || from == word,
    ensures
        graph.add(word, last).has_node(other) <==> graph.has_node(other) || other == word,
{
}

/// Reading `word` behind `last` raises the weight of the edge from `last` to
/// `word` by 1 and leaves the weight of every other edge as it was.
pub proof fn lemma_add_weight(
    graph: GraphModel,
    word: Seq<char>,
    last: Option<Seq<char>>,
    from: Seq<char>,
    to: Seq<char>,
)
    requires
        graph.well_formed(),
        last matches Some(before) ==> graph.has_node(before) || before == word,
    ensures
        graph.add(word, last).weight(from, to) == graph.weight(from, to) + (if last == Some(from)
            && to == word {
            1int
        } else {
            0int
        }),
{
    let mid = graph.add(word, None);
    lemma_add_well_formed(graph, word, None);
    assert(NodeModel::empty().successors() =~= Seq::<Seq<char>>::empty());
    assert(mid.weight(from, to) == graph.weight(from, to));
    if last == Some(from) {
        lemma_strengthen_weight(mid.nodes[from], word, to);
    }
}

/// Reading a text keeps a well-formed graph well formed, keeps its nodes and
/// gives every word of the text a node.
pub proof fn lemma_read_well_formed(graph: GraphModel, words: Seq<Seq<char>>)
    requires
        graph.well_formed(),
    ensures
        graph.read(words).well_formed(),
        forall|word: Seq<char>|
            #[trigger] graph.read(words).has_node(word) <==> graph.has_node(word)
                || words.contains(word),
    decreases words.len(),
{
    if words.len() > 0 {
        let front = words.drop_last();
        let mid = graph.read(front);
        let last = GraphModel::previous(words);
        lemma_read_well_formed(graph, front);
        if words.len() >= 2 {
            assert(front[front.len() - 1] == words[words.len() - 2]);
            assert(front.contains(words[words.len() - 2]));
        }
        lemma_add_well_formed(mid, words.last(), last);
        assert forall|word: Seq<char>| #[trigger]
            graph.read(words).has_node(word) <==> graph.has_node(word) || words.contains(
                word,
            ) by {
            lemma_add_nodes(mid, words.last(), last, word);
            if front.contains(word) {
                let i = front.index_of(word);
                assert(words[i] == word);
            }
            if words.contains(word) && word != words.last() {
                let i = words.index_of(word);
                assert(front[i] == word);
            }
            assert(words[words.len() - 1] == words.last());
        }
    } else {
        assert forall|word: Seq<char>| !words.contains(word) by {}
    }
}

/// After a text was read, the weight of an edge has grown by the number of
/// places in the text at which its second word stands right behind its first.
pub proof fn lemma_read_weight(
    graph: GraphModel,
    words: Seq<Seq<char>>,
    from: Seq<char>,
    to: Seq<char>,
)
    requires
        graph.well_formed(),
    ensures
        graph.read(words).weight(from, to) == graph.weight(from, to) + pairs(words, from, to),
    decreases words.len(),
{
    if words.len() > 0 {
        let front = words.drop_last();
        let mid = graph.read(front);
        lemma_read_weight(graph, front, from, to);
        lemma_read_well_formed(graph, front);
        if words.len() >= 2 {
            assert(front[front.len() - 1] == words[words.len() - 2]);
            assert(front.contains(words[words.len() - 2]));
        } else {
            assert(pairs(front, from, to) == 0);
        }
        lemma_add_weight(mid, words.last(), GraphModel::previous(words), from, to);
    }
}

/// Reading texts keeps a well-formed graph well formed.
pub proof fn lemma_read_texts_well_formed(graph: GraphModel, texts: Seq<Seq<char>>)
    requires
        graph.well_formed(),
    ensures
        graph.read_texts(texts).well_formed(),
    decreases texts.len(),
{
    if texts.len() > 0 {
        lemma_read_texts_well_formed(graph, texts.drop_last());
        lemma_read_well_formed(graph.read_texts(texts.drop_last()), split_words(texts.last()));
    }
}

/// After texts were read, the weight of an edge has grown by the number of
/// places at which its second word stands right behind its first within one
/// text: the last word of a text and the first word of the next form no
/// edge.
pub proof fn lemma_read_texts_weight(
    graph: GraphModel,
    texts: Seq<Seq<char>>,
    from: Seq<char>,
    to: Seq<char>,
)
    requires
        graph.well_formed(),
    ensures
        graph.read_texts(texts).weight(from, to) == graph.weight(from, to) + pairs_in_texts(
            texts,
            from,
            to,
        ),
    decreases texts.len(),
{
    if texts.len() > 0 {
        let front = texts.drop_last();
        lemma_read_texts_weight(graph, front, from, to);
        lemma_read_texts_well_formed(graph, front);
        lemma_read_weight(graph.read_texts(front), split_words(texts.last()), from, to);
    }
}

/// In a graph that was built from texts alone, an edge leads from one word
/// to another exactly when the second stands right behind the first
/// somewhere within a text, and its weight is the number of such places.
pub proof fn lemma_edge_iff_seen(texts: Seq<Seq<char>>, from: Seq<char>, to: Seq<char>)
    ensures
        GraphModel::empty().read_texts(texts).weight(from, to) == pairs_in_texts(texts, from, to),
        GraphModel::empty().read_texts(texts).has_edge(from, to) <==> pairs_in_texts(
            texts,
            from,
            to,
        ) >= 1,
{
    lemma_empty_well_formed();
    lemma_read_texts_weight(GraphModel::empty(), texts, from, to);
}

/// The nodes of a graph stand for words when the texts that were read into
/// it are its only source.
pub proof fn lemma_read_texts_only_words(graph: GraphModel, texts: Seq<Seq<char>>)
    requires
        graph.well_formed(),
        graph.only_words(),
    ensures
        graph.read_texts(texts).only_words(),
    decreases texts.len(),
{
    if texts.len() > 0 {
        let front = texts.drop_last();
        let mid = graph.read_texts(front);
        let words = split_words(texts.last());
        lemma_read_texts_only_words(graph, front);
        lemma_read_texts_well_formed(graph, front);
        lemma_read_well_formed(mid, words);
        lemma_split_words(texts.last());
        assert forall|word: Seq<char>| #[trigger]
            graph.read_texts(texts).has_node(word) implies is_word(word) by {
            if !mid.has_node(word) {
                let i = words.index_of(word);
                assert(is_word(words[i]));
            }
        }
    }
}

/// Two graphs that are equal stay equal when the same texts are read into
/// both.
pub proof fn lemma_same_texts_same_graph(
    first: GraphModel,
    second: GraphModel,
    texts: Seq<Seq<char>>,
)
    requires
        first == second,
    ensures
        first.read_texts(texts) == second.read_texts(texts),
{
}

/// The word at which a walk starts and the draws made on the way fix the
/// walk, and so the text that it yields: the same draws from the same word
/// give the same text.
pub proof fn lemma_same_draws_same_walk(
    graph: GraphModel,
    first: Seq<Seq<char>>,
    second: Seq<Seq<char>>,
    draws: Seq<int>,
)
    requires
        graph.follows(first, draws),
        graph.follows(second, draws),
        first[0] == second[0],
    ensures
        first == second,
        join_words(first) == join_words(second),
{
    assert forall|i: int| 0 <= i < first.len() implies first[i] == second[i] by {
        lemma_same_prefix(graph, first, second, draws, i);
    }
    assert(first =~= second);
}

/// Two walks that the same draws select from the same word agree up to any
/// place.
proof fn lemma_same_prefix(
    graph: GraphModel,
    first: Seq<Seq<char>>,
    second: Seq<Seq<char>>,
    draws: Seq<int>,
    i: int,
)
    requires
        graph.follows(first, draws),
        graph.follows(second, draws),
        first[0] == second[0],
        0 <= i < first.len(),
    ensures
        first[i] == second[i],
    decreases i,
{
    if i > 0 {
        lemma_same_prefix(graph, first, second, draws, i - 1);
        assert(1 <= draws[i - 1]);
    }
}

/// Every walk in a well-formed graph is the walk that some draws select.
pub proof fn lemma_walk_has_draws(graph: GraphModel, path: Seq<Seq<char>>) -> (draws: Seq<int>)
    requires
        graph.well_formed(),
        graph.is_walk(path),
    ensures
        graph.follows(path, draws),
{
    let draws = Seq::new(
        (path.len() - 1) as nat,
        |i: int|
            choose|draw: int|
                1 <= draw <= graph.total_weight(path[i]) && graph.nodes[path[i]].select(draw)
                    == path[i + 1],
    );
    assert forall|i: int| 0 <= i < draws.len() implies 1 <= #[trigger] draws[i]
        <= graph.total_weight(path[i]) && path[i + 1] == graph.nodes[path[i]].select(
        draws[i],
    ) by {
        assert(graph.has_edge(path[i], path[i + 1]));
        let draw = lemma_edge_has_draw(graph.nodes[path[i]], path[i + 1]);
    }
    draws
}

/// A text that a walk yields ends in `!`, `.` or `?`, and so does the last
/// word of the walk.
pub proof fn lemma_tweet_closes(graph: GraphModel, max_steps: int, text: Seq<char>)
    requires
        graph.may_yield(max_steps, Ok(text)),
    ensures
        is_terminal(text),
{
    let path = choose|path: Seq<Seq<char>>| #[trigger]
        graph.is_sentence(path) && path.len() <= max_steps + 1 && text == join_words(path);
    lemma_join_ends(path);
}

/// A text that a walk yields begins with an entry word, and so with one of
/// the letters `A` to `Z`.
pub proof fn lemma_tweet_opens(graph: GraphModel, max_steps: int, text: Seq<char>)
    requires
        graph.well_formed(),
        graph.may_yield(max_steps, Ok(text)),
    ensures
        is_entry_word(text),
        exists|path: Seq<Seq<char>>|
            text == join_words(path) && path.len() >= 1 && #[trigger] graph.entries.contains(
                path[0],
            ) && is_entry_word(path[0]),
{
    let path = choose|path: Seq<Seq<char>>| #[trigger]
        graph.is_sentence(path) && path.len() <= max_steps + 1 && text == join_words(path);
    let k = graph.entries.index_of(path[0]);
    assert(is_entry_word(graph.entries[k]));
    lemma_join_ends(path);
}

/// In a graph whose nodes stand for words, the words of a text that a walk
/// yields are that walk: the first of them is an entry word, each stands
/// behind the one before it with an edge between them, and the last, and no
/// other, closes a sentence.
pub proof fn lemma_tweet_words(graph: GraphModel, max_steps: int, text: Seq<char>)
    requires
        graph.well_formed(),
        graph.only_words(),
        graph.may_yield(max_steps, Ok(text)),
    ensures
        graph.is_sentence(split_words(text)),
        split_words(text).len() <= max_steps + 1,
        join_words(split_words(text)) == text,
        graph.entries.contains(split_words(text)[0]),
        is_entry_word(split_words(text)[0]),
        is_terminal(split_words(text).last()),
{
    let path = choose|path: Seq<Seq<char>>| #[trigger]
        graph.is_sentence(path) && path.len() <= max_steps + 1 && text == join_words(path);
    assert forall|i: int| 0 <= i < path.len() implies is_word(#[trigger] path[i]) by {
        crate::graph::lemma_walk_nodes(graph, path, i);
    }
    lemma_split_join(path);
    let k = graph.entries.index_of(path[0]);
    assert(is_entry_word(graph.entries[k]));
}

} // verus!
