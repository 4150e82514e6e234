pub mod gap_buffer;
