//! A linear scan register allocator: build a control flow graph of
//! instructions, let the allocator assign registers and stack slots to
//! every value, and walk the result with a code generator.

mod allocator;
mod api;
mod bitset;
mod check;
mod counting;
mod dce;
mod flatten;
mod gap;
mod generator;
mod graph;
mod graph_ops;
mod ids;
mod interval;
mod liveness;
mod ranges;
mod split;

pub use allocator::{Allocator, AllocatorResult, AllocatorState, Config, GroupResult, SplitConf};
pub use api::{GroupHelper, RegisterHelper, KindHelper, BlockBuilder};
pub use bitset::BitSet;
pub use dce::{DCE, DCEKindHelper, EffectLog};
pub use flatten::Flatten;
pub use gap::{GapResolver, MoveStatus};
pub use generator::{Generator, GeneratorFunctions, GeneratorHelper, GenEvent, Recorder};
pub use graph::{Value, UseKind, Use, LiveRange, GapActionKind, GapAction, GapState, InstrKind,
    Instruction, Block, Interval, Graph};
pub use ids::{BlockId, InstrId, IntervalId, StackId, GraphId};
pub use liveness::Liveness;
