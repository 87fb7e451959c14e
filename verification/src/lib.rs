//! Verified core of the Android eBPF storage studio: block-trace decoding,
//! request correlation, bandwidth accounting and the command/parsing helpers
//! used by the desktop front end.
pub mod latency;
pub mod text;
pub mod text_order;
pub mod protobuf;
pub mod perfetto;
pub mod correlation;
pub mod host_bw;
pub mod adb;
pub mod explorer;
pub mod diskstats;
pub mod perfetto_capture;
pub mod perfetto_projection;
pub mod capture_plan;
pub mod capture_stream;
pub mod graph_summary;
pub mod labels;
pub mod diagnostics;
pub mod file_evidence;
pub mod locality;
pub mod ranks;
pub mod preflight;
pub mod axis_range;
