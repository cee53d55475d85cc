//! Lossless, snapshot-local parsing of the Unity YAML dialect, with the
//! identity, reference and addressing rules that edits and merges build on.
//!
//! Every span the parser produces indexes the caller's original bytes, so an
//! unedited asset renders back byte for byte. Unsupported syntax is an error,
//! never a guessed repair.

pub mod text;
pub mod numbers;
pub mod digest;
pub mod syntax;
pub mod lexer;
pub mod lines;
pub mod keys;
pub mod fingerprint;
pub mod tree;
pub mod parser;
pub mod asset;
pub mod pointer;
pub mod property_path;
pub mod reading;
pub mod references;
pub mod validation;
pub mod ownership;
pub mod changes;
pub mod merge;
pub mod packed;
pub mod splice;
pub mod type_names;
pub mod aliases;
pub mod fields;
pub mod json;
pub mod indent;
pub mod decisions;
pub mod render;
pub mod scalars;
pub mod prefab;

pub use asset::{parse, parse_with_limits, Asset, Document};
pub use property_path::{id, property_tokens, PropertyToken};
pub use pointer::{array_hint_pattern, escape_pointer};
pub use references::{AssetReference, ReferenceKind};
pub use syntax::{CoreError, Diagnostic, Entry, Item, Limits, Node, NodeKind, ScalarStyle, Severity, Span};
pub use validation::validate;
pub use changes::{Change, ChangeKind, ChangeStatus, ValueSummary};
pub use merge::{prepare_merge, ChangeCatalog, FieldAlias, MergeSession};
pub use packed::{decode_integers, encode_integers, PackedElement};
pub use aliases::{prepare_merge_with_aliases, rename_snapshot_keys};
pub use decisions::{Conflict, Decision, MergeOutput, Resolution};
pub use json::JsonValue;
pub use scalars::ScalarHint;
