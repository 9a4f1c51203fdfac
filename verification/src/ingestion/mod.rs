pub mod provider;
pub mod sequencer;
