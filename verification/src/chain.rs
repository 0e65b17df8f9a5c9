//! The generator: a graph that is built from texts, and a random source
//! with which sentences are drawn from it.

use crate::error::GenerationError;
use crate::graph::{
    count_words, lemma_count_prefix, lemma_read_room, lemma_room_less, outcome_view, Graph,
    GraphModel,
};
use crate::random::entropy_rng;
use crate::words::{is_entry_word, is_terminal, split, split_words};
use rand::rngs::StdRng;
use vstd::prelude::*;

verus! {

/// A transition graph with the random source that walks it and the largest
/// number of steps that a walk may take.
pub struct MarkovChain {
    graph: Graph,
    rng: StdRng,
    max_steps: usize,
}

impl View for MarkovChain {
    type V = GraphModel;

    closed spec fn view(&self) -> GraphModel {
        self.graph@
    }
}

impl MarkovChain {
    /// The graph is well formed.
    pub closed spec fn wf(&self) -> bool {
        self.graph.wf()
    }

    /// The largest number of steps that a walk may take.
    pub closed spec fn max_steps(&self) -> usize {
        self.max_steps
    }

    /// A well-formed generator stands for a well-formed graph.
    pub proof fn lemma_well_formed(&self)
        requires
            self.wf(),
        ensures
            self@.well_formed(),
    {
        self.graph.lemma_well_formed();
    }

    /// A generator with an empty graph, a random source seeded by the
    /// operating system, and walks as long as the machine can count. Panics
    /// when the operating system cannot supply a seed.
    pub fn new() -> (chain: MarkovChain)
        ensures
            chain.wf(),
            chain@ == GraphModel::empty(),
            chain.max_steps() == usize::MAX,
    {
        MarkovChain { graph: Graph::new(), rng: entropy_rng(), max_steps: usize::MAX }
    }

    /// A generator with an empty graph that draws from `rng` and ends a walk
    /// after `max_steps` steps.
    pub fn with_rng(rng: StdRng, max_steps: usize) -> (chain: MarkovChain)
        ensures
            chain.wf(),
            chain@ == GraphModel::empty(),
            chain.max_steps() == max_steps,
    {
        MarkovChain { graph: Graph::new(), rng, max_steps }
    }

    /// The graph built so far.
    pub fn graph(&self) -> (graph: &Graph)
        ensures
            graph@ == self@,
            self.wf() ==> graph.wf(),
    {
        &self.graph
    }

    /// Tells whether the graph has room for all the words of `texts`.
    pub fn has_room_for(&self, texts: &Vec<String>) -> (fits: bool)
        requires
            self.wf(),
        ensures
            fits == self@.room_for(count_words(texts.deep_view())),
    {
        let room = self.graph.room();
        let ghost all = texts.deep_view();
        let mut counted: i32 = 0;
        let mut i: usize = 0;
        proof {
            assert(all.take(0) =~= Seq::<Seq<char>>::empty());
        }
        while i < texts.len()
            invariant
                all == texts.deep_view(),
                i <= texts.len(),
                0 <= counted <= room,
                counted == count_words(all.take(i as int)),
                forall|n: int| self@.room_for(n) <==> n <= room,
            decreases texts.len() - i,
        {
            let words = split(texts[i].as_str()).len();
            proof {
                lemma_count_prefix(all, i as int + 1);
            }
            if words > (room - counted) as usize {
                return false;
            }
            counted = counted + words as i32;
            i = i + 1;
        }
        proof {
            assert(all.take(all.len() as int) == all);
        }
        true
    }

    /// Reads `texts` in order into the graph. Each text is read from its
    /// first word on, so that no edge joins two texts.
    pub fn parse_in(&mut self, texts: &Vec<String>)
        requires
            old(self).wf(),
            old(self)@.room_for(count_words(texts.deep_view())),
        ensures
            final(self).wf(),
            final(self)@ == old(self)@.read_texts(texts.deep_view()),
            final(self)@.well_formed(),
            final(self).max_steps() == old(self).max_steps(),
    {
        let ghost before = self@;
        let ghost all = texts.deep_view();
        let mut i: usize = 0;
        proof {
            assert(all.take(0) =~= Seq::<Seq<char>>::empty());
        }
        while i < texts.len()
            invariant
                self.wf(),
                all == texts.deep_view(),
                i <= texts.len(),
                self.max_steps() == old(self).max_steps(),
                self@ == before.read_texts(all.take(i as int)),
                self@.room_for(count_words(all) - count_words(all.take(i as int))),
            decreases texts.len() - i,
        {
            let ghost now = self@;
            let ghost words = split_words(texts[i as int]@);
            proof {
                let seen = all.take(i as int + 1);
                assert(seen.drop_last() == all.take(i as int));
                assert(seen.last() == texts[i as int]@);
                lemma_count_prefix(all, i as int + 1);
                let rest = count_words(all) - count_words(seen);
                lemma_room_less(now, words.len() + rest, words.len() as int);
                lemma_read_room(now, words, rest);
            }
            self.graph.ingest(texts[i].as_str());
            i = i + 1;
        }
        proof {
            assert(all.take(all.len() as int) == all);
            self.graph.lemma_well_formed();
        }
    }

    /// Draws one sentence from the graph.
    pub fn generate_tweet(&mut self) -> (tweet: Result<String, GenerationError>)
        requires
            old(self).wf(),
        ensures
            final(self).wf(),
            final(self)@ == old(self)@,
            final(self).max_steps() == old(self).max_steps(),
            old(self)@.may_yield(old(self).max_steps() as int, outcome_view(tweet)),
            tweet matches Ok(text) ==> is_entry_word(text@) && is_terminal(text@),
    {
        self.graph.generate_tweet(&mut self.rng, self.max_steps)
    }

    /// Reads `texts` into the graph and draws `number` sentences from it,
    /// or none when `number` is not positive. The first walk that yields no
    /// sentence ends the call with its error.
    pub fn create_tweets(&mut self, texts: &Vec<String>, number: i32) -> (tweets: Result<
        Vec<String>,
        GenerationError,
    >)
        requires
            old(self).wf(),
            old(self)@.room_for(count_words(texts.deep_view())),
        ensures
            final(self).wf(),
            final(self)@ == old(self)@.read_texts(texts.deep_view()),
            final(self).max_steps() == old(self).max_steps(),
            match tweets {
                Ok(list) => list.len() == (if number > 0 {
                    number as int
                } else {
                    0
                }) && forall|i: int|
                    0 <= i < list.len() ==> final(self)@.may_yield(
                        old(self).max_steps() as int,
                        Ok(#[trigger] list[i]@),
                    ) && is_entry_word(list[i]@) && is_terminal(list[i]@),
                Err(error) => number > 0 && final(self)@.may_yield(
                    old(self).max_steps() as int,
                    Err(error),
                ),
            },
    {
        self.parse_in(texts);
        let mut list: Vec<String> = Vec::new();
        let mut made: i32 = 0;
        while made < number
            invariant
                self.wf(),
                self@ == old(self)@.read_texts(texts.deep_view()),
                self.max_steps() == old(self).max_steps(),
                0 <= made,
                made <= number || made == 0,
                list.len() == made,
                forall|i: int|
                    0 <= i < list.len() ==> self@.may_yield(
                        self.max_steps() as int,
                        Ok(#[trigger] list[i]@),
                    ) && is_entry_word(list[i]@) && is_terminal(list[i]@),
            decreases number - made,
        {
            match self.generate_tweet() {
                Ok(text) => {
                    list.push(text);
                },
                Err(error) => {
                    return Err(error);
                },
            }
            made = made + 1;
        }
        Ok(list)
    }
}

} // verus!
