//! Singly linked lists of `i32` built from owned boxes: an ordered set
//! without duplicates (`cs120`) and a plain stack (`first`).

pub mod cs120;
pub mod first;
