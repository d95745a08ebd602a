//! LaMa inpainting worker: the image pipeline around the model and the
//! Fourier-convolution generator itself.

pub mod axes;
pub mod blocks;
pub mod calls;
pub mod error;
pub mod exact;
pub mod float_laws;
pub mod fourier;
pub mod grid;
pub mod grid_laws;
pub mod laws;
pub mod layers;
pub mod layout;
pub mod model_calls;
pub mod model_laws;
pub mod name_laws;
pub mod native;
pub mod near;
pub mod network;
pub mod once;
pub mod picture_laws;
pub mod reflect;
pub mod report;
pub mod report_laws;
pub mod resize;
pub mod roi;
pub mod run_laws;
pub mod same;
pub mod session;
pub mod spectrum_laws;
pub mod step_laws;
pub mod success_laws;
pub mod tensor;
pub mod weights;
pub mod worker;
