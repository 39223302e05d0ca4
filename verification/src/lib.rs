//! Stable-handle memory pools: fixed-element pools that hand out small
//! copyable handles and recycle freed storage through a free list.

pub mod entry;
pub mod freelist;
pub mod table;
pub mod handlemap2;
pub mod slotmap;
pub mod pile;
