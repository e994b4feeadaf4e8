//! A disk-resident inverted index: a batch postings accumulator that
//! spills sorted partial indexes, a k-way external merge over the spilled
//! batches, a compact binary index layout (postings blob, directory,
//! lexicon), and a query processor answering single-term and conjunctive
//! queries.

pub mod accumulator;
pub mod builder;
pub mod codec;
pub mod errors;
pub mod lexicon;
pub mod merge;
pub mod pipeline;
pub mod postings;
pub mod query;
pub mod spill;
pub mod text;
