//! Grouped disjoint borrowing of index ranges out of one contiguous sequence.
//!
//! The heart of the library is [`disjoint_groups`]: a validator that decides
//! whether a nested collection of half-open index ranges is pairwise disjoint
//! and within the bounds of an underlying sequence, and accessors that, once
//! validity is established, hand out the covered items group by group.
//! [`errors`] carries a small result/option hybrid, [`encapsulation`] the
//! trait through which wrapper types expose an inner value, and
//! [`to_snake_case`] a verified case converter for mixed-case names.

pub mod disjoint_groups;
pub mod encapsulation;
pub mod errors;
pub mod to_snake_case;
