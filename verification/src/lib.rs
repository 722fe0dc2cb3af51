//! A size-parameterized bitboard: an N x N grid of boolean cells packed into
//! the minimum number of fixed-width unsigned integer blocks needed to hold
//! N * N bits. The board offers set/unset/query operations, population
//! counts, block-wise bitwise combination of boards of the same shape, and a
//! shift engine that slides the whole pattern by a directional move without
//! letting bits wrap around the board's edges. A move algebra (mirroring,
//! rotation, scaling, combination) and a fluent move builder turn unit moves
//! into full movement patterns such as all squares a queen attacks.

mod bits;
mod board;
mod builder;
mod grid;
mod iter;
mod moves;
mod ops;
mod shift;
mod sizes;

pub use board::BitBoard;
pub use builder::Moves;
pub use iter::BitBoardIter;
pub use moves::Move;
pub use moves::Rotation;
pub use shift::EdgeMask;
pub use sizes::required_bits;
pub use sizes::required_blocks;
pub use sizes::required_bytes;
