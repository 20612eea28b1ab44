pub mod episode_info;
pub mod errors;
pub mod parsing;
pub mod types;

pub use episode_info::{EpisodeNameMethod, EpisodeNumberMethod};
pub use parsing::{SrtEntry};
pub use types::{Subtitle, Subtitles, Timestamp};
