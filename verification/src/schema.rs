//! The schema registry: the dotted path prefixes that denote repeated
//! (array) structures.

use crate::text::{same_text, texts};
use vstd::prelude::*;
use vstd::string::StringExecFns;

verus! {

/// The registered array paths. Built once, then only read.
pub struct Schema {
    pub array_paths: Vec<String>,
}

impl View for Schema {
    type V = Set<Seq<char>>;

    open spec fn view(&self) -> Set<Seq<char>> {
        texts(self.array_paths@).to_set()
    }
}

/// The array paths of DataCite metadata.
pub open spec fn datacite_array_paths() -> Seq<Seq<char>> {
    seq![
        "identifiers"@,
        "alternateIdentifiers"@,
        "creators"@,
        "creators.affiliation"@,
        "creators.nameIdentifiers"@,
        "titles"@,
        "subjects"@,
        "contributors"@,
        "contributors.affiliation"@,
        "contributors.nameIdentifiers"@,
        "dates"@,
        "relatedIdentifiers"@,
        "relatedItems"@,
        "relatedItems.titles"@,
        "relatedItems.creators"@,
        "relatedItems.contributors"@,
        "sizes"@,
        "formats"@,
        "rightsList"@,
        "descriptions"@,
        "geoLocations"@,
        "geoLocations.geoLocationPolygon"@,
        "fundingReferences"@,
    ]
}

impl Schema {
    /// A schema of the given array paths.
    pub fn new(array_paths: Vec<String>) -> (schema: Schema)
        ensures
            schema.array_paths == array_paths,
            schema@ == texts(array_paths@).to_set(),
    {
        Schema { array_paths }
    }

    /// The schema of DataCite metadata.
    pub fn datacite() -> (schema: Schema)
        ensures
            schema@ == datacite_array_paths().to_set(),
    {
        let mut paths: Vec<String> = Vec::new();
        paths.push(String::from_str("identifiers"));
        paths.push(String::from_str("alternateIdentifiers"));
        paths.push(String::from_str("creators"));
        paths.push(String::from_str("creators.affiliation"));
        paths.push(String::from_str("creators.nameIdentifiers"));
        paths.push(String::from_str("titles"));
        paths.push(String::from_str("subjects"));
        paths.push(String::from_str("contributors"));
        paths.push(String::from_str("contributors.affiliation"));
        paths.push(String::from_str("contributors.nameIdentifiers"));
        paths.push(String::from_str("dates"));
        paths.push(String::from_str("relatedIdentifiers"));
        paths.push(String::from_str("relatedItems"));
        paths.push(String::from_str("relatedItems.titles"));
        paths.push(String::from_str("relatedItems.creators"));
        paths.push(String::from_str("relatedItems.contributors"));
        paths.push(String::from_str("sizes"));
        paths.push(String::from_str("formats"));
        paths.push(String::from_str("rightsList"));
        paths.push(String::from_str("descriptions"));
        paths.push(String::from_str("geoLocations"));
        paths.push(String::from_str("geoLocations.geoLocationPolygon"));
        paths.push(String::from_str("fundingReferences"));
        assert(texts(paths@) =~= datacite_array_paths());
        Schema { array_paths: paths }
    }

    /// Whether `path` is registered as an array path.
    pub fn is_array_path(&self, path: &str) -> (b: bool)
        ensures
            b == self@.contains(path@),
    {
        let n: usize = self.array_paths.len();
        let mut i: usize = 0;
        while i < n
            invariant
                n == self.array_paths.len(),
                0 <= i <= n,
                forall|k: int| 0 <= k < i ==> #[trigger] texts(self.array_paths@)[k] != path@,
            decreases n - i,
        {
            if same_text(self.array_paths[i].as_str(), path) {
                assert(texts(self.array_paths@)[i as int] == path@);
                return true;
            }
            i += 1;
        }
        false
    }
}

} // verus!
