pub mod mem;
pub mod multi_record_log;
pub mod record;
pub mod rolling;
