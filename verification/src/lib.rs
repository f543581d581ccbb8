pub mod roc_metrics;
