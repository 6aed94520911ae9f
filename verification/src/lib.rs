//! Snippets of documentation: text between a `<snip id="..">` tag and its
//! `</snip>`, collected from source files and injected into the regions
//! that ask for them.
//!
//! A file is read in two steps. The [`parser::grammar`] cuts its text into
//! open tags, close tags and the text between them; the [`parser::tree`]
//! pairs each open tag with its close tag, so that a file becomes a tree of
//! regions that spans the text exactly. The [`parser::collector`] walks
//! that tree and hands out the snippets; [`db`] makes a table of them, in
//! which a later snippet replaces an earlier one of the same id. The
//! [`parser::injector`] walks the top of the tree, and gives each region
//! that asks for a snippet the content that [`parser::synth`] makes of it.
//!
//! Two things are left to other crates. What attributes an open tag has is
//! asked of `scraper` ([`parser::html_tag`]), and where a pattern matches is
//! asked of `regex` ([`pattern`]). The contracts name what they answer and
//! state everything else.
//!
//! What is kept by path, the snippets of each file and what an injection
//! made of each file, stands in the order of the paths, each path once
//! ([`bypath`]).
//!
//! [`reporters`] makes the rows that are shown of a run; printing them, and
//! all reading and writing of files, is left to the caller.
//!
//! [`laws`] holds what is proved of these functions taken together: that a
//! file in which nothing is injected comes out as it went in, that a second
//! injection changes nothing, and what prefixes and templates do to a
//! content.
pub mod bypath;
pub mod config;
pub mod db;
pub mod errors;
pub mod laws;
pub mod parser;
pub mod pattern;
pub mod reporters;
pub mod strmap;
pub mod text;
pub mod walk;
