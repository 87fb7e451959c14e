# ebpf_studio

The verified core of a desktop studio that captures Android block-I/O traces
(over adb, with an eBPF agent or Perfetto) and analyses them. Every function
in `src/` carries a Verus contract. All are proved except four small
wrappers around `std::str::from_utf8`, `String::from_utf8_lossy`, collecting
characters into a `String`, and `uuid::Uuid::parse_str`, whose contracts are
trusted.

## Layout

- `src/text.rs`, `src/protobuf.rs`: character and protobuf wire-format
  helpers with exact specifications.
- `src/text_order.rs`: the order in which `str` compares text, and the
  sets and maps keyed by text that are kept in that order.
- `src/perfetto.rs`, `src/perfetto_projection.rs`: decoding a Perfetto trace
  into block events, processes and trace quality.
- `src/correlation.rs`: matching block issues to completions and reporting
  each completion once.
- `src/host_bw.rs`, `src/latency.rs`: busy-time unions, transferred bytes and
  latency buckets.
- `src/graph_summary.rs`, `src/locality.rs`, `src/ranks.rs`: per-device
  sector runs with their read and write counts, start-address reuse gaps,
  and the rank positions of percentiles and spread renderings.
- `src/diskstats.rs`: `/proc/diskstats` parsing and the running counter
  projection of a session.
- `src/adb.rs`, `src/preflight.rs`, `src/perfetto_capture.rs`,
  `src/capture_plan.rs`, `src/capture_stream.rs`: command construction,
  output parsing and the decision state machines of a device preflight and
  a capture (root detection, probe order, agent installation, process
  identity, liveness, recovery).
- `src/file_evidence.rs`: which recorded file operations relate to a cohort
  of block requests.
- `src/diagnostics.rs`: redaction of file paths from diagnostic details.
- `src/explorer.rs`, `src/labels.rs`: explorer presets, axes and the labels
  shown for classifications and attributed files.
- `src/axis_range.rs`: the plot's view state, its bounded Back history and
  the outcome of an axis-range edit.
- `app/`: the command-line front end: process execution, files, JSON
  records and floating-point presentation.
- `tests/`: tests of the library through its public interface.
