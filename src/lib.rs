//! A split-ordered hash map over a growable segment tree.
pub mod bits;
pub mod growable_array;
pub mod split_ordered_list;
