//! Encoder for batches of finished tracing spans into the payloads that a
//! Datadog trace agent takes in, and the plumbing of the exporter around it.

pub mod binary64;
pub mod error;
pub mod exporter;
pub mod grouping;
pub mod intern;
pub mod mapping;
pub mod order;
pub mod pipeline;
pub mod reading;
pub mod seen;
pub mod span;
pub mod tags;
pub mod transport;
pub mod v03;
pub mod v05;
pub mod version;
pub mod wire;

pub use error::EncodeError;
pub use exporter::{DatadogExporter, ExportResult};
pub use pipeline::DatadogPipelineBuilder;
pub use version::ApiVersion;
