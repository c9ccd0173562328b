//! Content-routed colour quantization: exact palettes, median-cut plus
//! weighted k-means over the colour histogram, and NeuQuant training
//! streams, with the routing rules that choose between them.

pub mod kmeans;
pub mod census;
pub mod route;
pub mod neuquant;
pub mod quantize;
