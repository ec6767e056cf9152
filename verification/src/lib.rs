//! Splits a SQL dump into a sequence of smaller scripts, each below a byte
//! budget where the statements allow it, and each valid SQL by itself.
//!
//! The pipeline is pull-based. A [`splitter::Splitter`] drives a
//! [`parser::Parser`], which drives a [`tokenizer::Tokenizer`], which drives a
//! [`reader::Reader`] over a [`source::ByteSource`]. A dump that its caller
//! reads block by block goes through a [`feed::Feed`], which runs the same
//! pipeline over what it has been handed.
//!
//! What the pipeline computes is said by functions on sequences of bytes:
//! [`lexical::lex`] for the token at the front of an input, [`syntax::unit`]
//! for the statement unit there, and [`policy::chunk`] and
//! [`policy::advance`] for what is written for a unit. Over these stand the
//! laws of the library:
//!
//! - tokens and units lose no byte ([`lexical::lemma_tokens_round_trip`],
//!   [`syntax::lemma_units_cover`]), and up to the first error they are the
//!   front of the input ([`lexical::lemma_leading`],
//!   [`syntax::lemma_leading`]);
//! - a file goes over the budget by its last chunk at most
//!   ([`policy::lemma_budget`]);
//! - the output is the dump, but for the prefixes replayed and the rows
//!   closed ([`policy::lemma_output_is_dump`]);
//! - a budget that the dump stays under gives one file, the dump itself
//!   ([`policy::lemma_one_file`]);
//! - the output files are complete SQL, each by itself, just where the
//!   units written to each file are in order and end with all row lists
//!   closed ([`validity::lemma_files_sound`]);
//! - how a dump is cut into blocks makes no difference
//!   ([`feed::lemma_fed_is_whole`]).
pub mod ascii;
pub mod cli;
pub mod delimit;
pub mod feed;
pub mod framing;
pub mod lexical;
pub mod parser;
pub mod policy;
pub mod reader;
pub mod source;
pub mod splitter;
pub mod syntax;
pub mod token;
pub mod token_err;
pub mod tokenizer;
pub mod validity;
pub mod writer;
