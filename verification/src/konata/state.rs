//! Identity and presentation settings of pipeline tiles.
use vstd::prelude::*;
use std::collections::HashMap;

verus! {

/// Identity of a pipeline tile.
#[derive(Debug, Clone, Copy, PartialEq, Eq, Structural, Hash)]
pub struct KonataTileId(pub u64);

/// Identity of a loaded trace source.
#[derive(Debug, Clone, Copy, PartialEq, Eq, Structural, Hash)]
pub struct SourceId(pub u64);

/// A transaction stream, optionally narrowed to one generator.
#[derive(Debug, Clone)]
pub struct TransactionStreamRef {
    pub stream_id: u64,
    pub gen_id: Option<u64>,
    pub name: String,
}

impl TransactionStreamRef {
    /// The stream `stream_id` narrowed to generator `gen_id`.
    pub fn new_gen(stream_id: u64, gen_id: u64, name: String) -> (r: Self)
        ensures
            r.stream_id == stream_id,
            r.gen_id == Some(gen_id),
            r.name@ == name@,
    {
        TransactionStreamRef { stream_id, gen_id: Some(gen_id), name }
    }
}

/// What a pipeline tile shows: the instruction generator of a stream of a source.
#[derive(Debug, Clone)]
pub struct KonataModelSpec {
    pub source: SourceId,
    pub generator: TransactionStreamRef,
}

impl KonataModelSpec {
    /// Whether the tile shows data of `source`.
    pub fn references_source(&self, source: SourceId) -> (refers: bool)
        ensures
            refers == (self.source == source),
    {
        self.source == source
    }

    /// Moves the tile to the source that `source_map` maps its source to, if any.
    pub fn remap_sources(&mut self, source_map: &HashMap<u64, u64>)
        ensures
            final(self).source == (if source_map@.contains_key(old(self).source.0) {
                SourceId(source_map@[old(self).source.0])
            } else {
                old(self).source
            }),
            final(self).generator.stream_id == old(self).generator.stream_id,
            final(self).generator.gen_id == old(self).generator.gen_id,
            final(self).generator.name@ == old(self).generator.name@,
    {
        broadcast use vstd::std_specs::hash::group_hash_axioms;

        if let Some(source) = source_map.get(&self.source.0) {
            self.source = SourceId(*source);
        }
    }
}

/// How the lanes of a row are laid out.
#[derive(Debug, Clone, Copy, PartialEq, Eq, Structural)]
pub enum KonataLaneMode {
    Merged,
    SplitFixed,
    SplitNatural,
}

impl Default for KonataLaneMode {
    fn default() -> (mode: Self)
        ensures
            mode == KonataLaneMode::Merged,
    {
        KonataLaneMode::Merged
    }
}

/// How stages are colored.
#[derive(Debug, Clone, Copy, PartialEq, Eq, Structural)]
pub enum KonataColorScheme {
    Auto,
    Unique,
    Thread,
    Orange,
    RoyalBlue,
    ColorBlindSafe,
    Custom,
}

impl Default for KonataColorScheme {
    fn default() -> (scheme: Self)
        ensures
            scheme == KonataColorScheme::Auto,
    {
        KonataColorScheme::Auto
    }
}

/// How dependency arrows are drawn.
#[derive(Debug, Clone, Copy, PartialEq, Eq, Structural)]
pub enum KonataArrowStyle {
    Inside,
    LeftCurve,
    Hidden,
}

impl Default for KonataArrowStyle {
    fn default() -> (style: Self)
        ensures
            style == KonataArrowStyle::Inside,
    {
        KonataArrowStyle::Inside
    }
}

/// How an overlaid trace is aligned with the tile's trace.
#[derive(Debug, Clone, Copy, PartialEq, Eq, Structural, Hash)]
pub enum KonataAlignmentMode {
    ThreadRid,
    FetchId,
    Timestamp,
}

impl Default for KonataAlignmentMode {
    fn default() -> (mode: Self)
        ensures
            mode == KonataAlignmentMode::ThreadRid,
    {
        KonataAlignmentMode::ThreadRid
    }
}

/// How instructions are classified for statistics.
#[derive(Debug, Clone, Copy, PartialEq, Eq, Structural, Hash)]
pub enum KonataInstructionClassifier {
    Generic,
    X86Gem5,
}

impl Default for KonataInstructionClassifier {
    fn default() -> (classifier: Self)
        ensures
            classifier == KonataInstructionClassifier::Generic,
    {
        KonataInstructionClassifier::Generic
    }
}

/// The `auto` keyword of a color component.
#[derive(Debug, Clone, Copy, PartialEq, Eq, Structural)]
pub enum KonataAutoKeyword {
    Auto,
}

/// The synchronization group of a tile: its group, else group zero for a tile that only
/// asks to synchronize its scrolling, else none.
pub open spec fn sync_group_of(sync_group: Option<u64>, synchronize_scroll: bool) -> Option<u64> {
    match sync_group {
        Some(g) => Some(g),
        None => if synchronize_scroll {
            Some(0u64)
        } else {
            None
        },
    }
}

/// The synchronization group of a tile.
pub fn synchronization_group(sync_group: Option<u64>, synchronize_scroll: bool) -> (group: Option<u64>)
    ensures
        group == sync_group_of(sync_group, synchronize_scroll),
{
    match sync_group {
        Some(g) => Some(g),
        None => if synchronize_scroll { Some(0) } else { None },
    }
}

/// Whether a tile belongs to group zero, the group that follows the waveform.
pub fn konata_waveform_sync_enabled(sync_group: Option<u64>, synchronize_scroll: bool) -> (enabled: bool)
    ensures
        enabled == (sync_group_of(sync_group, synchronize_scroll) == Some(0u64)),
{
    match synchronization_group(sync_group, synchronize_scroll) {
        Some(g) => g == 0,
        None => false,
    }
}

} // verus!
