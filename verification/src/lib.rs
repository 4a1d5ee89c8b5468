//! Verified core of the moadim dashboard: the filtering, sorting, grouping,
//! ranking, reliability and schedule logic behind its pages.

pub mod cron_jobs;
pub mod day_timeline;
pub mod health;
pub mod log_viewer;
pub mod logs;
pub mod order;
pub mod overview;
pub mod palette;
pub mod refresh;
pub mod reliability;
pub mod routines;
pub mod schedule;
pub mod shell;
pub mod text;
