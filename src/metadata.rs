use vstd::prelude::*;

verus! {

/// The descriptive metadata of a tile source that the registry reads: the
/// zoom bounds it covers and how it is presented to clients.
pub struct Metadata {
    pub minzoom: Option<u8>,
    pub maxzoom: Option<u8>,
    pub name: Option<String>,
    pub description: Option<String>,
    pub attribution: Option<String>,
}

/// Whether `zoom` lies within the optional bounds, both inclusive.
pub open spec fn zoom_in_bounds(minzoom: Option<u8>, maxzoom: Option<u8>, zoom: u8) -> bool {
    (minzoom matches Some(lo) ==> zoom >= lo) && (maxzoom matches Some(hi) ==> zoom <= hi)
}

/// A copy of an optional text.
pub(crate) fn copy_text(o: &Option<String>) -> (r: Option<String>)
    ensures
        r == *o,
{
    match o {
        Some(s) => Some(s.clone()),
        None => None,
    }
}

impl Metadata {
    pub open spec fn covers(&self, zoom: u8) -> bool {
        zoom_in_bounds(self.minzoom, self.maxzoom, zoom)
    }

    /// A copy with the same bounds and texts.
    pub fn copied(&self) -> (r: Metadata)
        ensures
            r == *self,
    {
        Metadata {
            minzoom: self.minzoom,
            maxzoom: self.maxzoom,
            name: copy_text(&self.name),
            description: copy_text(&self.description),
            attribution: copy_text(&self.attribution),
        }
    }

    /// True when `zoom` is no lower than `minzoom` and no higher than
    /// `maxzoom`; an absent bound does not restrict.
    pub fn is_valid_zoom(&self, zoom: u8) -> (r: bool)
        ensures
            r == self.covers(zoom),
    {
        let above_min = match self.minzoom {
            Some(lo) => zoom >= lo,
            None => true,
        };
        let below_max = match self.maxzoom {
            Some(hi) => zoom <= hi,
            None => true,
        };
        above_min && below_max
    }
}

} // verus!
