//! The operations offered to callers that hold builders and products as handles.

pub mod anoncreds;
