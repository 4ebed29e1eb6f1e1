//! Text-to-speech helper: turns selected text into the ordered chunks that a
//! local synthesis backend speaks, names the cache file of each chunk, and
//! decides the steps that bring each chunk's audio into the playback queue.
pub mod cache;
pub mod chunk;
pub mod menu;
pub mod normalize;
pub mod playback;
pub mod text;

pub use cache::calculate_hash;
pub use chunk::chunk_text;
pub use menu::Menu;
pub use normalize::process_text;
