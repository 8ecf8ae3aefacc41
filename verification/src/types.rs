use vstd::prelude::*;

verus! {

/// One scanned source file: its path and the module specifiers it depends on.
///
/// `dependencies` is the extractor's output for the file's text: a list of
/// module-specifier strings. When a record is produced by `parse`, the list
/// is sorted and free of duplicates; the cache codec and the canonicalizer
/// accept any list.
pub struct SourceFile {
    pub path: String,
    pub dependencies: Vec<String>,
}

impl View for SourceFile {
    type V = (Seq<char>, Seq<Seq<char>>);

    open spec fn view(&self) -> Self::V {
        (self.path@, self.dependencies.deep_view())
    }
}

/// The full dependency index: one record per scanned file.
pub type HasteMap = Vec<SourceFile>;

/// The mathematical view of one record: its path and its dependency list.
pub type RecordView = (Seq<char>, Seq<Seq<char>>);

/// The mathematical view of a whole index.
pub open spec fn index_view(v: Seq<SourceFile>) -> Seq<RecordView> {
    Seq::new(v.len(), |i: int| v[i]@)
}

} // verus!
