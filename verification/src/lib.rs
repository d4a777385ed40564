//! A verified engine for TXML, a compact markup dialect that describes a
//! template of directories and files.  A document is tokenized into tagged
//! events, variables declared in it are substituted textually, and the event
//! stream is folded into a tree of `Directory` and `File` nodes.  The tree can
//! be rendered back into markup, and its instantiation against a filesystem is
//! modelled and verified over an explicit filesystem state.

#![verifier::loop_isolation(false)]

pub mod cli;
pub mod commands;
pub mod instantiate;
pub mod normalize;
pub mod reader;
pub mod roundtrip;
pub mod templates;
pub mod text;
pub mod txml_elements;
pub mod txml_structure;
