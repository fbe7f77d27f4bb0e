//! Verified core of a FREAK key-point matching layer: binary descriptor
//! distances, k-medoids and hierarchical clustering, nearest-neighbour
//! search, Hough vote bins, integer image and vector helpers, and the binary
//! reference-data-set format.

pub mod byte_order;
pub mod clustering;
pub mod gaussian_pyramid;
pub mod homography;
pub mod hough;
pub mod image_resize;
pub mod keyframe;
pub mod matcher;
pub mod math;
pub mod ref_data_set;
pub mod pyramid;
