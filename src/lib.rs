//! Escape-time fractal rendering: viewport coordinate mapping, color schemes,
//! histogram-equalized rasterization and adaptive animation scheduling.
pub mod animation;
pub mod color;
pub mod context;
pub mod raster;

pub use animation::{
    accumulate_contrast, color_frame, compute_grid, grid_difference, highest_interval,
    midpoint_time, render_animation, render_frame, render_vfr, sort_by_time, subdivide_highest, Frame, Interval,
    QUARTER,
};
pub use color::{rgb_bytes, Color, ColorScheme, ColorSchemeColor, Fraction, POSITION_ONE};
pub use context::{ImageIterator, PixelCoordinate, RenderingContext, RowIterator, RowPixelIterator};
pub use raster::{accumulate_row, color_equalized, color_grid, compute_row, empty_histogram, merge_histograms, render_image};
