//! Reference counted buffers over page aligned, recycled memory.

pub mod accounting;
pub mod class;
pub mod cursor;
pub mod effects;
pub mod error;
pub mod foreign;
pub mod iou_buf;
pub mod iou_buf_pool;
pub mod iou_buf_vec;
pub mod laws;
pub mod model;
pub mod queue;
pub mod range;
pub mod slab;
pub mod slab_list;
pub mod view;
pub mod write_all;
pub mod writev_all;

pub use cursor::IouBufCursor;
pub use error::AllocError;
pub use iou_buf::IouBuf;
pub use iou_buf_pool::BufferPool;
pub use iou_buf_vec::IouBufVec;
