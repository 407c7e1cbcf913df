//! Background work: propagation through the task graph, webhook notifications,
//! and the decisions of the worker loops.

pub mod batch_updater;
pub mod cancel;
pub mod change_laws;
pub mod change_metrics;
pub mod claim_scan;
pub mod counter_flush;
pub mod counting_laws;
pub mod delivery_laws;
pub mod delivery_loop;
pub mod event_laws;
pub mod finish;
pub mod finish_laws;
pub mod flush_laws;
pub mod graph_laws;
pub mod life_laws;
pub mod notice_laws;
pub mod propagation;
pub mod leader_lease;
pub mod metrics_sampler;
pub mod queue_laws;
pub mod retention;
pub mod round_laws;
pub mod scan_laws;
pub mod spread_laws;
pub mod start_laws;
pub mod start_loop;
pub mod start_task;
pub mod timeout_loop;
pub mod transition_laws;
pub mod webhooks;
