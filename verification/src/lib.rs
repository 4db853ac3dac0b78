//! Debugging and visualization utilities for contour hierarchies traced from
//! binary images: ranking contours by perimeter or by direct-child count,
//! filtering out elongated artifacts by the aspect ratio of their minimum-area
//! rectangle, projecting rotated rectangles to axis-aligned boxes, and
//! generating visually distinct label colors.

pub mod colors;
pub mod contours;
pub mod point;
pub mod ratio;
pub mod rect;
