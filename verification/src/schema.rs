//! The classification of groups by their tag.

use vstd::prelude::*;
use crate::doc::Attrs;
use crate::text::str_eq;

verus! {

/// The structural role of a group.
#[derive(Clone, Copy, Debug, PartialEq, Eq, Hash)]
pub enum TrackType {
    ListItems,
    BlockQuotes,
    Blocks,
    BlockObjects,
    Inlines,
    InlineObjects,
}

/// The value of the key `"tag"`, if the attributes have one.
pub open spec fn tag_of(attrs: Map<Seq<char>, Seq<char>>) -> Option<Seq<char>> {
    if attrs.contains_key("tag"@) {
        Some(attrs["tag"@])
    } else {
        None
    }
}

/// The role that a tag stands for.
pub open spec fn track_of(tag: Seq<char>) -> Option<TrackType> {
    if tag == "bullet"@ {
        Some(TrackType::ListItems)
    } else if tag == "blockquote"@ {
        Some(TrackType::BlockQuotes)
    } else if tag == "p"@ || tag == "h1"@ || tag == "h2"@ || tag == "h3"@ || tag == "h4"@ || tag
        == "h5"@ || tag == "h6"@ || tag == "pre"@ {
        Some(TrackType::Blocks)
    } else if tag == "hr"@ {
        Some(TrackType::BlockObjects)
    } else if tag == "span"@ {
        Some(TrackType::Inlines)
    } else if tag == "cursor"@ {
        Some(TrackType::InlineObjects)
    } else {
        None
    }
}

/// The role of a group with the given attributes; none without a tag or
/// with an unknown one.
pub open spec fn classify_spec(attrs: Map<Seq<char>, Seq<char>>) -> Option<TrackType> {
    match tag_of(attrs) {
        Some(tag) => track_of(tag),
        None => None,
    }
}

/// The attributes mark the embedded caret.
pub open spec fn is_cursor(attrs: Map<Seq<char>, Seq<char>>) -> bool {
    tag_of(attrs) == Some("cursor"@)
}

/// The attributes mark a block boundary.
pub open spec fn is_block(attrs: Map<Seq<char>, Seq<char>>) -> bool {
    classify_spec(attrs) == Some(TrackType::Blocks)
}

/// Classifies a group by its tag.
pub fn classify(attrs: &Attrs) -> (kind: Option<TrackType>)
    ensures
        kind == classify_spec(attrs@),
{
    match attrs.get("tag") {
        None => None,
        Some(tag) => {
            let t = tag.as_str();
            if str_eq(t, "bullet") {
                Some(TrackType::ListItems)
            } else if str_eq(t, "blockquote") {
                Some(TrackType::BlockQuotes)
            } else if str_eq(t, "p") || str_eq(t, "h1") || str_eq(t, "h2") || str_eq(t, "h3")
                || str_eq(t, "h4") || str_eq(t, "h5") || str_eq(t, "h6") || str_eq(t, "pre") {
                Some(TrackType::Blocks)
            } else if str_eq(t, "hr") {
                Some(TrackType::BlockObjects)
            } else if str_eq(t, "span") {
                Some(TrackType::Inlines)
            } else if str_eq(t, "cursor") {
                Some(TrackType::InlineObjects)
            } else {
                None
            }
        },
    }
}

/// Whether the attributes mark the embedded caret.
pub fn has_cursor_tag(attrs: &Attrs) -> (yes: bool)
    ensures
        yes == is_cursor(attrs@),
{
    match attrs.get("tag") {
        None => false,
        Some(tag) => str_eq(tag.as_str(), "cursor"),
    }
}

/// Whether the attributes mark a block boundary.
pub fn has_block_tag(attrs: &Attrs) -> (yes: bool)
    ensures
        yes == is_block(attrs@),
{
    match classify(attrs) {
        Some(TrackType::Blocks) => true,
        _ => false,
    }
}

} // verus!
