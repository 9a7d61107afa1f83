//! Verified core of a Redis slow-query-log tail: decoding of slow-log
//! rows, uptime parsing, and the watermark state machine that orders,
//! deduplicates and emits new records exactly once.

pub mod argument_parsing;
pub mod slowlog;
pub mod slowlog_reader;
pub mod uptime;
pub mod value;

pub use argument_parsing::Config;
pub use argument_parsing::OutputFormat;
pub use slowlog::RecordModel;
pub use slowlog::SlowlogRecord;
pub use slowlog::decode_batch;
pub use slowlog::decode_row;
pub use slowlog::encode_record;
pub use slowlog_reader::PollEvent;
pub use slowlog_reader::PollOutput;
pub use slowlog_reader::RemoteError;
pub use slowlog_reader::SlowlogReader;
pub use slowlog_reader::recoverable;
pub use uptime::UptimeError;
pub use uptime::parse_uptime;
pub use value::DecodeError;
pub use value::RespValue;
