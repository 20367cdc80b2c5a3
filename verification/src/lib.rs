pub mod config;
pub mod digest;
pub mod error;
pub mod globs;
pub mod i18n;
pub mod skill;
pub mod snapshot;
pub mod status;
pub mod sync;
pub mod text;

pub use config::{Config, DiffConfig, HashAlgo, HashConfig, Target};
pub use error::{AppError, AppResult};
pub use skill::validate_skill_id;
