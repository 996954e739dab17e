//! This module describes how data gets generated from the underlying
//! representation in the [`data`](../data/index.html) module.

pub mod base;
pub mod collections;
pub mod numbers;
pub mod tuples;

pub use self::base::{
    booleans, consts, find_minimal, lazy, one_of, optional, optional_by, result, BoolGenerator,
    Const, FilterMapped, Filtered, FlatMapped, Generator, LazyGenerator, Mapped, Maybe, OneOfGenerator,
    OneOfItem, OneOfSnoc, OneOfTerm, OptionalGenerator, ResultGenerator, WeightedCoinGenerator,
};
pub use self::collections::{
    choice, collections, info_pools, vecs, ChoiceGenerator, Collection, CollectionGenerator,
    InfoPoolGenerator, VecGenerator,
};
pub use self::numbers::{
    i16s, i32s, i64s, i8s, isizes, mul_u64s, mul_u8, u16s, u32s, u64s, u8s, uptos, usizes,
    BetweenGenerator, IntGenerator, ScaleInt, UptoGenerator,
};
