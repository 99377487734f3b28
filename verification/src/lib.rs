//! Content-defined chunking: cutting a byte sequence into chunks whose
//! boundaries follow the content, found with a gear hash and two masks.

pub mod chunker;
pub mod gear;
pub mod model;
pub mod naive;
pub mod sizing;
pub mod theory;

pub use chunker::{Chunk, PackCDC, MASK_14, MASK_15};
pub use naive::pack_count_anchors;
pub use sizing::{ceil_div, center_size};
