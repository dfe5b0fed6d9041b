//! Colour extraction and segmentation: the decisions, geometry and bookkeeping
//! behind palettes, region maps, background masks and contact sheets.

pub mod adjacency;
pub mod algorithms;
pub mod anime;
pub mod anime_merge;
pub mod background;
pub mod blocks;
pub mod border;
pub mod canvas;
pub mod ccl;
pub mod classes;
pub mod clusters;
pub mod dilate;
pub mod dims;
pub mod edge;
pub mod encoding;
pub mod flood;
pub mod foreground;
pub mod fusion;
pub mod groups;
pub mod impression;
pub mod kmeans;
pub mod median_cut;
pub mod merge;
pub mod morphology;
pub mod names;
pub mod octree;
pub mod octree_pixels;
pub mod order;
pub mod overlays;
pub mod page_clusters;
pub mod page_palette;
pub mod page_segments;
pub mod params;
pub mod partition;
pub mod pipeline;
pub mod quantile;
pub mod refine;
pub mod region;
pub mod residual;
pub mod sampling;
pub mod scalar;
pub mod segfeat;
pub mod segment;
pub mod selection;
pub mod separation;
pub mod sheet;
pub mod softmask;
pub mod spatial;
pub mod split;
pub mod text;
pub mod thumbs;
pub mod timing;
pub mod uf;
pub mod weights;
