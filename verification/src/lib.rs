//! A small preprocessor for a Lisp-like intermediate text format: it parses one
//! top-level tagged expression `(label prefix... instructions...)` into a tree,
//! unfolds inlined function definitions found among the prefix entries, and
//! normalizes `block`/`loop`/`end` instruction lines into a parenthesized form.

mod ast;
mod laws;
mod parse;
mod scan;
mod scopey;
mod text;
mod unfold;

pub use ast::Node;
pub use ast::NodeV;
pub use ast::ParseError;
pub use ast::Tagged;
pub use ast::TaggedV;
pub use ast::node_view;
pub use ast::node_weight;
pub use ast::nodes_view;
pub use ast::prefix_weight;
pub use ast::result_view;
pub use ast::tagged_view;
pub use laws::canonical_form;
pub use laws::canonical_form_grouped;
pub use laws::lemma_parse_canonical;
pub use laws::lemma_parse_canonical_grouped;
pub use laws::plain_token;
pub use parse::ParseState;
pub use parse::flush_close;
pub use parse::init_state;
pub use parse::leaves;
pub use parse::parse_from;
pub use parse::parse_tagged;
pub use parse::parse_tagged_spec;
pub use parse::state_tree;
pub use parse::ws_step;
pub use scan::paren_balance;
pub use scan::parse_sexp;
pub use scan::scan_end;
pub use scopey::entry_normalized;
pub use scopey::lemma_scopey_entry_normalized;
pub use scopey::lemma_scopey_idempotent;
pub use scopey::lemma_scopey_noop;
pub use scopey::replace_scopey;
pub use scopey::scopey_entry;
pub use scopey::scopey_spec;
pub use text::trim_spec;
pub use unfold::lemma_unfold_preserves_instructions;
pub use unfold::unfold_entries;
pub use unfold::unfold_entry;
pub use unfold::unfold_funcs;
pub use unfold::unfold_spec;
