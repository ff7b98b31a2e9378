//! The block shapes that come with the library, and the widths of their vectors.

pub mod block2;
pub mod block3;
pub mod block4;
pub mod block5;
pub mod block6;
pub mod block7;
pub mod vector;

pub use block2::Block2;
pub use block3::Block3;
pub use block4::Block4;
pub use block5::Block5;
pub use block6::Block6;
pub use block7::Block7;
pub use vector::Vector;
