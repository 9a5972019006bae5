//! Identity of a decode source.

use vstd::prelude::*;

verus! {

/// Abstract identity of a source: a container track or a standalone file.
pub enum SourceKeyView {
    TrackId(u32),
    FilePath(Seq<char>),
}

/// Source identifier used by decode workers.
#[derive(Debug)]
pub enum SourceKey {
    /// Container track id source.
    TrackId(u32),
    /// Standalone file path source.
    FilePath(String),
}

/// Runtime shuffle source selected by a playback plan.
#[derive(Debug)]
pub enum ShuffleSource {
    /// A track inside the container.
    TrackId(u32),
    /// A standalone file on disk.
    FilePath(String),
}

impl View for SourceKey {
    type V = SourceKeyView;

    open spec fn view(&self) -> SourceKeyView {
        match self {
            SourceKey::TrackId(id) => SourceKeyView::TrackId(*id),
            SourceKey::FilePath(p) => SourceKeyView::FilePath(p@),
        }
    }
}

impl View for ShuffleSource {
    type V = SourceKeyView;

    open spec fn view(&self) -> SourceKeyView {
        match self {
            ShuffleSource::TrackId(id) => SourceKeyView::TrackId(*id),
            ShuffleSource::FilePath(p) => SourceKeyView::FilePath(p@),
        }
    }
}

impl SourceKey {
    /// True when both keys name the same source.
    pub fn same_as(&self, other: &SourceKey) -> (r: bool)
        ensures
            r == (self@ == other@),
    {
        match self {
            SourceKey::TrackId(a) => match other {
                SourceKey::TrackId(b) => *a == *b,
                SourceKey::FilePath(_) => false,
            },
            SourceKey::FilePath(a) => match other {
                SourceKey::TrackId(_) => false,
                SourceKey::FilePath(b) => {
                    let r = a.eq(b);
                    r
                },
            },
        }
    }

    /// Convert a runtime shuffle source into a decode-worker source key.
    pub fn from_shuffle_source(value: &ShuffleSource) -> (r: SourceKey)
        ensures
            r@ == value@,
            r == (match value {
                ShuffleSource::TrackId(id) => SourceKey::TrackId(*id),
                ShuffleSource::FilePath(p) => SourceKey::FilePath(*p),
            }),
    {
        match value {
            ShuffleSource::TrackId(track_id) => SourceKey::TrackId(*track_id),
            ShuffleSource::FilePath(path) => SourceKey::FilePath(path.clone()),
        }
    }
}

impl ShuffleSource {
    /// True when both name the same source.
    pub fn same_as(&self, other: &ShuffleSource) -> (r: bool)
        ensures
            r == (self@ == other@),
    {
        let a = SourceKey::from_shuffle_source(self);
        let b = SourceKey::from_shuffle_source(other);
        a.same_as(&b)
    }
}

impl Clone for ShuffleSource {
    fn clone(&self) -> (r: ShuffleSource)
        ensures
            r@ == self@,
    {
        match self {
            ShuffleSource::TrackId(id) => ShuffleSource::TrackId(*id),
            ShuffleSource::FilePath(p) => ShuffleSource::FilePath(p.clone()),
        }
    }
}

impl<'a> From<&'a ShuffleSource> for SourceKey {
    fn from(value: &'a ShuffleSource) -> (r: SourceKey) {
        SourceKey::from_shuffle_source(value)
    }
}

impl<'a> vstd::std_specs::convert::FromSpecImpl<&'a ShuffleSource> for SourceKey {
    open spec fn obeys_from_spec() -> bool {
        true
    }

    open spec fn from_spec(v: &'a ShuffleSource) -> SourceKey {
        match v {
            ShuffleSource::TrackId(id) => SourceKey::TrackId(*id),
            ShuffleSource::FilePath(p) => SourceKey::FilePath(*p),
        }
    }
}

impl Clone for SourceKey {
    fn clone(&self) -> (r: SourceKey)
        ensures
            r@ == self@,
    {
        match self {
            SourceKey::TrackId(id) => SourceKey::TrackId(*id),
            SourceKey::FilePath(p) => SourceKey::FilePath(p.clone()),
        }
    }
}

impl PartialEq for SourceKey {
    fn eq(&self, other: &SourceKey) -> (r: bool) {
        self.same_as(other)
    }
}

impl Eq for SourceKey {}

impl vstd::std_specs::cmp::PartialEqSpecImpl for SourceKey {
    open spec fn obeys_eq_spec() -> bool {
        true
    }

    open spec fn eq_spec(&self, other: &SourceKey) -> bool {
        self@ == other@
    }
}

} // verus!
