//! Detection of point-like bright features in raster images, and matching of
//! the features of two images by the shapes of the triangles they form.
//!
//! An image goes through the stages in turn: its blob response (`kernel`,
//! `process`), the dilation of the response (`process`), its feature points
//! (`peaks`, with the stable sort of `sort`), the triangles that the points
//! form (`triangle`), and the pairs of like triangles of two images
//! (`align`). `pipeline` runs the stages on one image, and `viewer` holds the
//! rules by which a viewer steps through images and stages. All of them
//! measure brightness in a domain of numbers that the caller chooses
//! (`scalar`); `fixed` is one such domain, and `fixed_laws` holds what is
//! true of the stages in that domain in particular.

pub mod align;
pub mod fixed;
pub mod fixed_laws;
pub mod image;
pub mod kernel;
pub mod peaks;
pub mod pipeline;
pub mod process;
pub mod scalar;
pub mod sort;
pub mod triangle;
pub mod viewer;
