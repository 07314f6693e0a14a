//! Images: where a remote one is cached, how it is fetched and rewritten
//! into the document, and which rasters the terminal still holds.

use vstd::prelude::*;

pub mod cache;
pub mod fetch;
pub mod placement;
pub mod remote;
pub mod residency;

verus! {

/// How much of the media ladder this session can use.
#[derive(Debug, Clone, Copy, PartialEq, Eq, Structural)]
pub enum MediaMode {
    /// The terminal carries rasters and images are wanted: the full ladder.
    Full,
    /// The terminal cannot carry a raster: images degrade to alt text, and
    /// display math to a text grid.
    TextOnly,
    /// The reader asked for no images: alt text and literal TeX source, no
    /// boxes reserved at all.
    Suppressed,
}

impl MediaMode {
    /// The ladder a session gets: none when the reader asked for no images,
    /// text only when the terminal cannot carry a raster — inside tmux, which
    /// does not pass the graphics protocol through, or on any terminal other
    /// than Ghostty — and the full ladder otherwise.
    pub fn select(no_images: bool, in_tmux: bool, ghostty: bool) -> (m: MediaMode)
        ensures
            m == (if no_images {
                MediaMode::Suppressed
            } else if in_tmux || !ghostty {
                MediaMode::TextOnly
            } else {
                MediaMode::Full
            }),
    {
        if no_images {
            MediaMode::Suppressed
        } else if in_tmux || !ghostty {
            MediaMode::TextOnly
        } else {
            MediaMode::Full
        }
    }
}

} // verus!
