//! Ingestion of ordered items (such as block heights) from several
//! providers: each provider's state is tracked, a sequencer turns the merged
//! feed into a strictly increasing stream without repeats, and a monitor
//! reports which providers are stopped or lagging behind.

pub mod ingestion;
pub mod util;

pub use ingestion::provider::{
    ProviderAction, ProviderState, ProviderStatus, ProviderSystemMonitor,
    ProviderSystemMonitorState, StreamEvent,
};
pub use ingestion::sequencer::{Sequencer, SequencerError};
pub use util::{is_sorted, no_sequential_duplicates, simulated_block, LastSeen};
