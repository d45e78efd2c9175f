//! Why the reduction is sound: schedules as words, and the words a search may skip.

pub mod behaviour;
pub mod initials;
pub mod program;
pub mod taint;
pub mod history;
pub mod planting;
pub mod cover;
pub mod ledger;
pub mod traces;
pub mod reliable;
pub mod effect;
pub mod commute;
pub mod record;
pub mod programs;
