//! Verified core of a structure-from-motion toolkit.

pub mod text;
pub mod order;
pub mod paths;
pub mod error;
pub mod dataset;
pub mod sets;
pub mod layout;
pub mod camera;
pub mod ba;
pub mod lm;
pub mod rebuild;
pub mod features;
pub mod markers;
pub mod modelselect;
pub mod merge;
pub mod project;
pub mod ingest;
pub mod mapinput;
pub mod graph;
pub mod consensus;
pub mod rig;
pub mod model;
pub mod diagnostics;
pub mod residuals;
pub mod refine;
pub mod exif;
pub mod vanishing;
pub mod tuning;
pub mod initcam;
pub mod progress;
pub mod pipeline;
pub mod imageview;
pub mod start;
pub mod layoutfile;
pub mod raster;
pub mod viewer;
pub mod linking;
pub mod linktree;
pub mod listing;
pub mod stages;
