//! Verified scheduling, routing and buffering logic for the Proteus playback engine.

pub mod accounting;
pub mod aligned_buffer;
pub mod backpressure;
pub mod buffer_mixer;
pub mod cover_map;
pub mod decode_worker;
pub mod meter_frames;
pub mod mix_runtime;
pub mod packet_router;
pub mod plan;
pub mod player_state;
pub mod premix;
pub mod routing;
pub mod sample_ring;
pub mod shuffle_schedule;
pub mod source_key;
pub mod track_buffers;
