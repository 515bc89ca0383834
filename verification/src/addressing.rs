//! Addresses of files: a path on a device, or content by its id.

use vstd::prelude::*;
use crate::text::copy_string;

verus! {

/// Where a file is: a physical path on a device, or a piece of content.
#[derive(Clone, Debug)]
pub enum SdPath {
    Physical { device_slug: String, path: String },
    Content { content_id: u128 },
}

impl SdPath {
    /// The physical address of `path` on `device_slug`.
    pub fn physical(device_slug: &str, path: &str) -> (r: Self)
        ensures
            r matches SdPath::Physical { device_slug: d, path: p } && d@ == device_slug@ && p@ == path@,
    {
        SdPath::Physical { device_slug: copy_string(device_slug), path: copy_string(path) }
    }

    /// The address of a piece of content.
    pub fn content(content_id: u128) -> (r: Self)
        ensures
            r == (SdPath::Content { content_id }),
    {
        SdPath::Content { content_id }
    }

    /// The device and path of a physical address.
    pub fn as_physical(&self) -> (r: Option<(&String, &String)>)
        ensures
            match *self {
                SdPath::Physical { device_slug, path } => r matches Some((d, p)) && *d == device_slug && *p == path,
                SdPath::Content { .. } => r is None,
            },
    {
        match self {
            SdPath::Physical { device_slug, path } => Some((device_slug, path)),
            SdPath::Content { .. } => None,
        }
    }
}

} // verus!
