//! The composition types, in one import.
pub use crate::modules::bidi::{BidiLayerPair, BidiLayers, OutputMerge, OutputMergeConfig};
pub use crate::modules::block::BlockConfig;
pub use crate::modules::builder::LayersBuilder;
pub use crate::modules::cache::CacheStack;
pub use crate::modules::layer::{Layer, LayerUntied};
pub use crate::modules::layers::Layers;
pub use crate::modules::mlp::{GatedMlp, GatedMlpConfig};
pub use crate::modules::multi_gate::{Residuals, ResidualsConfig};
pub use crate::modules::network::{LatentNetwork, VocabNetwork};
pub use crate::optim::{MuonPlan, ProjSegment, ProjSpec};
pub use crate::utils::class::{ClassLatent, ClassToken};
pub use crate::utils::init::InitPolicy;
pub use crate::utils::schedule::{BidiSchedule, GradHorizon, Schedule};
