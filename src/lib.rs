//! Query-result caching support: finding the base tables a query plan reads,
//! and capturing a streamed result set for the cache without disturbing the
//! stream that the consumer sees.

pub mod capture;
pub mod params;
pub mod plan;
pub mod telemetry;

pub use capture::{CacheAction, CacheCapture, CaptureView, StreamEvent};
pub use params::{
    AccelerationRequest, Args, DatasetFilter, DatasetQueryParams, Format, SampleQueryParams,
    SampleTableMethod,
};
pub use plan::{get_logical_plan_input_tables, NodeKind, PlanNode, TableRef};
pub use telemetry::{
    filter_event_keys, is_valid_span_id, is_valid_traceid, process_output, CapturedOutput,
};
