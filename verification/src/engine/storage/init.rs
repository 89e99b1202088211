//! How the secondary indexes are opened.
//!
//! An index is stored in segments that a manifest lists. An older single file is
//! taken over into segments once. Files that are damaged lead to an empty index,
//! which the log then fills with what was written since the last checkpoint.
use vstd::prelude::*;

verus! {

/// A secondary index.
#[derive(Clone, Copy, PartialEq, Eq, Structural, Debug)]
pub enum IndexKind {
    Vector,
    Graph,
    TimeSeries,
    Tag,
}

/// What is done to open an index.
#[derive(Clone, Copy, PartialEq, Eq, Structural, Debug)]
pub enum OpenStep {
    /// The index is not enabled.
    Skip,
    /// The segments are loaded.
    LoadSegments,
    /// The single file is loaded and taken over into segments.
    TakeOverFile,
    /// An empty index is made.
    CreateEmpty,
    /// The index is there.
    Ready,
}

/// What a step came to.
#[derive(Clone, Copy, PartialEq, Eq, Structural, Debug)]
pub enum OpenOutcome {
    Loaded,
    /// There was nothing to load.
    Nothing,
    /// What was there could not be loaded.
    Corrupt,
}

impl IndexKind {
    /// The name of the single file.
    pub open spec fn file_name(self) -> Seq<char> {
        match self {
            IndexKind::Vector => "hnsw.idx"@,
            IndexKind::Graph => "graph.idx"@,
            IndexKind::TimeSeries => "timeseries.idx"@,
            IndexKind::Tag => "tags.idx"@,
        }
    }

    /// The name of the manifest.
    pub open spec fn manifest_name(self) -> Seq<char> {
        match self {
            IndexKind::Vector => "hnsw.manifest"@,
            IndexKind::Graph => "graph.manifest"@,
            IndexKind::TimeSeries => "timeseries.manifest"@,
            IndexKind::Tag => "tags.manifest"@,
        }
    }

    /// The name of the single file.
    pub fn file(&self) -> (r: &'static str)
        ensures
            r@ == self.file_name(),
    {
        match self {
            IndexKind::Vector => "hnsw.idx",
            IndexKind::Graph => "graph.idx",
            IndexKind::TimeSeries => "timeseries.idx",
            IndexKind::Tag => "tags.idx",
        }
    }

    /// The name of the manifest.
    pub fn manifest(&self) -> (r: &'static str)
        ensures
            r@ == self.manifest_name(),
    {
        match self {
            IndexKind::Vector => "hnsw.manifest",
            IndexKind::Graph => "graph.manifest",
            IndexKind::TimeSeries => "timeseries.manifest",
            IndexKind::Tag => "tags.manifest",
        }
    }
}

/// Whether a leftover single file beside a manifest is worth a warning.
pub fn warns_of_leftover(kind: IndexKind, file: bool, manifest: bool) -> (r: bool)
    ensures
        r == (file && manifest && kind != IndexKind::Tag),
{
    file && manifest && kind != IndexKind::Tag
}

/// The first step: a manifest takes precedence over a single file. The vector index
/// is made anew if there is neither; the others then load no segments.
pub open spec fn first(kind: IndexKind, enabled: bool, file: bool, manifest: bool) -> OpenStep {
    if !enabled {
        OpenStep::Skip
    } else if manifest {
        OpenStep::LoadSegments
    } else if file {
        OpenStep::TakeOverFile
    } else if kind == IndexKind::Vector {
        OpenStep::CreateEmpty
    } else {
        OpenStep::LoadSegments
    }
}

/// The first step of opening an index.
pub fn first_step(kind: IndexKind, enabled: bool, file: bool, manifest: bool) -> (r: OpenStep)
    ensures
        r == first(kind, enabled, file, manifest),
{
    if !enabled {
        OpenStep::Skip
    } else if manifest {
        OpenStep::LoadSegments
    } else if file {
        OpenStep::TakeOverFile
    } else {
        match kind {
            IndexKind::Vector => OpenStep::CreateEmpty,
            _ => OpenStep::LoadSegments,
        }
    }
}

/// What follows a step: the vector index falls back from its segments to the single
/// file, and every index falls back from a damaged single file to an empty index.
/// Of the other indexes the segments that can be loaded are the index.
pub open spec fn following(
    kind: IndexKind,
    step: OpenStep,
    outcome: OpenOutcome,
    file: bool,
) -> OpenStep {
    match step {
        OpenStep::LoadSegments => if outcome == OpenOutcome::Loaded || kind != IndexKind::Vector {
            OpenStep::Ready
        } else if file {
            OpenStep::TakeOverFile
        } else {
            OpenStep::CreateEmpty
        },
        OpenStep::TakeOverFile => if outcome == OpenOutcome::Loaded {
            OpenStep::Ready
        } else {
            OpenStep::CreateEmpty
        },
        OpenStep::CreateEmpty => OpenStep::Ready,
        OpenStep::Skip => OpenStep::Skip,
        OpenStep::Ready => OpenStep::Ready,
    }
}

/// What follows a step of opening an index.
pub fn next_open_step(kind: IndexKind, step: OpenStep, outcome: OpenOutcome, file: bool) -> (r:
    OpenStep)
    ensures
        r == following(kind, step, outcome, file),
{
    match step {
        OpenStep::LoadSegments => if outcome == OpenOutcome::Loaded || kind != IndexKind::Vector {
            OpenStep::Ready
        } else if file {
            OpenStep::TakeOverFile
        } else {
            OpenStep::CreateEmpty
        },
        OpenStep::TakeOverFile => if outcome == OpenOutcome::Loaded {
            OpenStep::Ready
        } else {
            OpenStep::CreateEmpty
        },
        OpenStep::CreateEmpty => OpenStep::Ready,
        OpenStep::Skip => OpenStep::Skip,
        OpenStep::Ready => OpenStep::Ready,
    }
}

/// Whatever the steps come to, an enabled index is ready after three of them at
/// most, and one that is not enabled is never opened.
pub proof fn law_opening_ends(
    kind: IndexKind,
    enabled: bool,
    file: bool,
    manifest: bool,
    a: OpenOutcome,
    b: OpenOutcome,
    c: OpenOutcome,
)
    ensures
        ({
            let one = following(kind, first(kind, enabled, file, manifest), a, file);
            let two = following(kind, one, b, file);
            let three = following(kind, two, c, file);
            three == (if enabled {
                OpenStep::Ready
            } else {
                OpenStep::Skip
            })
        }),
{
}

/// How an index is opened: from its segments if a manifest lists them, from the single
/// file if there is only that, and empty if there is nothing; and what is damaged does not
/// keep it from being opened.
pub proof fn law_opening(kind: IndexKind, file: bool, manifest: bool, outcome: OpenOutcome)
    ensures
        first(kind, false, file, manifest) == OpenStep::Skip,
        first(kind, true, file, true) == OpenStep::LoadSegments,
        first(kind, true, true, false) == OpenStep::TakeOverFile,
        first(IndexKind::Vector, true, false, false) == OpenStep::CreateEmpty,
        kind != IndexKind::Vector ==> first(kind, true, false, false) == OpenStep::LoadSegments,
        following(kind, OpenStep::LoadSegments, OpenOutcome::Loaded, file) == OpenStep::Ready,
        following(kind, OpenStep::TakeOverFile, OpenOutcome::Loaded, file) == OpenStep::Ready,
        outcome != OpenOutcome::Loaded ==> {
            &&& following(kind, OpenStep::TakeOverFile, outcome, file) == OpenStep::CreateEmpty
            &&& following(IndexKind::Vector, OpenStep::LoadSegments, outcome, true)
                == OpenStep::TakeOverFile
            &&& following(IndexKind::Vector, OpenStep::LoadSegments, outcome, false)
                == OpenStep::CreateEmpty
            &&& kind != IndexKind::Vector ==> following(
                kind,
                OpenStep::LoadSegments,
                outcome,
                file,
            ) == OpenStep::Ready
        },
        following(kind, OpenStep::CreateEmpty, outcome, file) == OpenStep::Ready,
{
}

/// The names under which the indexes are stored.
pub proof fn law_file_names()
    ensures
        IndexKind::Vector.file_name() == "hnsw.idx"@,
        IndexKind::Graph.file_name() == "graph.idx"@,
        IndexKind::TimeSeries.file_name() == "timeseries.idx"@,
        IndexKind::Tag.file_name() == "tags.idx"@,
        IndexKind::Vector.manifest_name() == "hnsw.manifest"@,
        IndexKind::Graph.manifest_name() == "graph.manifest"@,
        IndexKind::TimeSeries.manifest_name() == "timeseries.manifest"@,
        IndexKind::Tag.manifest_name() == "tags.manifest"@,
{
}

} // verus!
