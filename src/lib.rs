//! Temporarily rewrites `if_chain!` invocations into syntax that a standard
//! formatter accepts, and restores them afterwards.
//!
//! The forward rewrite turns each invocation into nested ordinary code around
//! a fresh marker identifier; after formatting, the reverse rewrite turns the
//! marker's shapes back into `if_chain!` syntax. Positions reported by a
//! parser (line and character column) are converted to byte offsets, and all
//! replacements of a file are made in one ordered pass.

pub mod cli;
pub mod marker;
pub mod offset_based_rewriter;
pub mod offset_calculator;
pub mod position;
pub mod restore;
pub mod rewriter;
pub mod text;
pub mod transcode;

pub use cli::{classify_arg, classify_lowered, process_args, ArgKind, Options};
pub use marker::{fresh_marker, unused_ident};
pub use offset_based_rewriter::{EagerRewriter, Interface, LazyRewriter, OffsetBasedRewriter};
pub use offset_calculator::{CachingOffsetCalculator, StatelessOffsetCalculator};
pub use position::{LineColumn, Span};
pub use restore::{restore_if_chain, RestoreError};
pub use rewriter::Rewriter;
pub use transcode::{
    match_if_chain, rewrite_if_chain, rewrite_tokens, Edit, Insertion, InsertionKind, MacroCall,
    RewriteError, Token, TokenKind,
};
