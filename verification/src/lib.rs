//! Verified core of the fraud-scoring IVF index: the seeded generator used
//! to build it, the binary index format, nearest-neighbour selection and
//! the byte-level parsing of the labelled dataset.

pub mod ivf;
pub mod ivf_format;
pub mod kmeans;
pub mod nearest;
pub mod preprocess;
pub mod vectorize;
