//! Template extraction and parameter encoding.
//!
//! A batch of messages is split into tokens; messages of the same structure
//! share a template, whose slots hold the tokens that differ. Parameters are
//! kept in short binary forms where that loses nothing, and can be written as
//! differences from a reference row.

pub use crate::agent::parts::{Template, TemplatePart};
pub use crate::agent::records::{EncodedRecord, ParamEncoding, TemplateBatch, TemplateRecord};
pub use crate::agent::typed::{ParamType, TypedParam};
use vstd::prelude::*;

verus! {

/// Extracts templates and encodes parameters.
pub struct TemplateExtractor;

} // verus!
