//! Retrieval: what in a namespace answers a query, and in which order.

use self::rank::{Score, Weights};
use vstd::prelude::*;

pub use code::{search_code, CodeHit, CodeOptions};
pub use drill::{digest_hit, drill_down, TreeHit};
pub use search::{query, recall, Hit};
pub use terms::{path_prior, query_code_entities, query_terms};

pub mod code;
pub mod drill;
pub mod rank;
pub mod search;
pub mod signals;
pub mod terms;

verus! {

/// What a chunk of text has in common with a query.
#[derive(Debug, Clone, Copy, PartialEq, Eq, Structural)]
pub struct TextSignals {
    /// How many of the query's words the chunk contains.
    pub hits: usize,
    /// How many words the query has.
    pub terms: usize,
    /// How many of the query's entities the chunk's document mentions.
    pub graph: usize,
    /// The most that any document mentions.
    pub max_graph: usize,
    pub weights: Weights,
}

/// What a chunk of code has in common with a query.
#[derive(Debug, Clone)]
pub struct CodeSignals {
    /// How many of the query's words the chunk contains.
    pub hits: usize,
    /// How many words the query has.
    pub terms: usize,
    /// How many chunks there are.
    pub candidates: usize,
    /// In how many of them each term of the query occurs, where terms count by their rarity.
    pub frequencies: Vec<usize>,
    /// Which of these terms the chunk contains.
    pub matched: Vec<bool>,
    pub graph: usize,
    pub max_graph: usize,
    /// The weights of the signals where the graph counts.
    pub weights: Option<Weights>,
    /// The prior of the chunk's path, in hundredths.
    pub prior: u32,
    /// Whether the chunk's document mentions a rare symbol that the query names.
    pub defines: bool,
}

/// What the signals of a chunk of code hold.
#[verifier::ext_equal]
pub struct CodeFacts {
    pub hits: nat,
    pub terms: nat,
    pub candidates: nat,
    pub frequencies: Seq<usize>,
    pub matched: Seq<bool>,
    pub graph: nat,
    pub max_graph: nat,
    pub weights: Option<Weights>,
    pub prior: u32,
    pub defines: bool,
}

impl View for CodeSignals {
    type V = CodeFacts;

    open spec fn view(&self) -> CodeFacts {
        CodeFacts {
            hits: self.hits as nat,
            terms: self.terms as nat,
            candidates: self.candidates as nat,
            frequencies: self.frequencies@,
            matched: self.matched@,
            graph: self.graph as nat,
            max_graph: self.max_graph as nat,
            weights: self.weights,
            prior: self.prior,
            defines: self.defines,
        }
    }
}

/// What is computed on floats: vectors are the bits of 32-bit floats, scores those of 64-bit
/// floats.
pub trait Scorer {
    /// The similarity of two vectors: their cosine, from 0 to 1.
    fn cosine(&self, a: &Vec<u32>, b: &Vec<u32>) -> u64;

    /// The score of a chunk of text from its similarity and its other signals.
    fn text_score(&self, vector: u64, signals: TextSignals) -> Score;

    /// The score of a chunk of code from its similarity and its other signals.
    fn code_score(&self, vector: u64, signals: &CodeSignals) -> Score;

    /// Whether a term that occurs in so many of the candidates is rare.
    fn is_rare(&self, candidates: usize, frequency: usize) -> bool;

    /// How fresh a document is that was updated at one time and is looked at at another.
    fn freshness(&self, updated_at: u64, now: u64) -> u64;
}

/// Whether a scorer may give two vectors this similarity.
pub open spec fn cosine_gives<S: Scorer>(scorer: &S, query: Vec<u32>, vector: Seq<u32>, r: u64) -> bool {
    exists|v: Vec<u32>| v@ == vector && #[trigger] call_ensures(S::cosine, (scorer, &query, &v), r)
}

} // verus!
