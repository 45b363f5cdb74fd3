//! Volume initialization records. Expanding environment variables,
//! downloading archives and unpacking them is outside work; this module
//! holds the record and the one decision the work needs: whether a source
//! names an object-storage bucket.

use vstd::prelude::*;
use vstd::string::StrSliceExecFns;

verus! {

/// One volume to initialize: a named source archive and a target directory.
#[derive(Debug)]
pub struct VolumeInitializer {
    pub name: String,
    pub source: String,
    pub target: String,
}

/// The mathematical value of a [`VolumeInitializer`].
pub struct VolumeView {
    pub name: Seq<char>,
    pub source: Seq<char>,
    pub target: Seq<char>,
}

impl View for VolumeInitializer {
    type V = VolumeView;

    open spec fn view(&self) -> VolumeView {
        VolumeView { name: self.name@, source: self.source@, target: self.target@ }
    }
}

/// Whether a source string starts with `s3://`, case-insensitively.
pub open spec fn is_bucket_url(s: Seq<char>) -> bool {
    &&& s.len() >= 5
    &&& (s[0] == 's' || s[0] == 'S')
    &&& s[1] == '3'
    &&& s[2] == ':'
    &&& s[3] == '/'
    &&& s[4] == '/'
}

impl VolumeInitializer {
    /// Builds a record from its parts.
    pub fn new(name: String, source: String, target: String) -> (r: VolumeInitializer)
        ensures
            r@.name == name@,
            r@.source == source@,
            r@.target == target@,
    {
        VolumeInitializer { name, source, target }
    }

    /// Whether the source names an object-storage bucket rather than a
    /// local archive.
    pub fn has_bucket_source(&self) -> (r: bool)
        ensures
            r == is_bucket_url(self@.source),
    {
        let s = self.source.as_str();
        let n = s.unicode_len();
        if n < 5 {
            return false;
        }
        let c0 = s.get_char(0);
        (c0 == 's' || c0 == 'S') && s.get_char(1) == '3' && s.get_char(2) == ':' && s.get_char(3)
            == '/' && s.get_char(4) == '/'
    }
}

} // verus!
