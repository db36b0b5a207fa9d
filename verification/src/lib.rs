//! Disk usage as a treemap: the size-annotated tree of a directory, the
//! bookkeeping of the scan that builds it, and its layout as nested
//! rectangles. Every function carries a contract that is machine-checked.
//!
//! The tree ([`model`]) is grown by inserting relative paths and finished
//! by adding up the sizes and ordering the children; [`independence`] and
//! [`shape`] state what holds of every tree made that way. The scan
//! ([`scanner`]) is driven from outside: the caller walks the directory and
//! hands over what it meets. The layout ([`treemap`], on [`squarify`] and
//! [`geometry`]) works on whole numbers of units, a thousand to the pixel,
//! so that its results can be stated exactly; [`nesting`] states how the
//! cells lie in one another. The remaining modules serve a display:
//! texts for sizes, durations and names, stand-in names, totals by file
//! type, a bounded log, and the choice of the cell under a point.

pub mod model;
pub mod independence;
pub mod shape;
pub mod order;
pub mod wide;
pub mod geometry;
pub mod squarify;
pub mod treemap;
pub mod nesting;
pub mod scanner;
pub mod text;
pub mod format;
pub mod labels;
pub mod paths;
pub mod alias;
pub mod typestats;
pub mod actionlog;
pub mod display;
