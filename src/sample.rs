use vstd::prelude::*;

verus! {

/// Identifies one field of a sample type. Each key addresses either a numeric
/// field or a text field, and always the same kind.
pub trait SerieKey: Sized + Copy {
    /// Whether the key addresses a numeric field; otherwise it addresses text.
    spec fn numeric(&self) -> bool;

    fn is_numeric(&self) -> (r: bool)
        ensures
            r == self.numeric(),
    ;

    fn is_string(&self) -> (r: bool)
        ensures
            r == !self.numeric(),
    ;

    /// Whether two keys are the same key.
    fn same_key(&self, other: &Self) -> (r: bool)
        ensures
            r == (*self == *other),
    ;

    /// A name for people to read.
    fn get_display_name(&self) -> String;
}

/// A record whose fields are read by key: numeric fields as integers, text
/// fields as strings.
pub trait Sample<K: SerieKey>: Sized {
    /// The value of a numeric field.
    spec fn number_at(&self, key: K) -> i32;

    /// The value of a text field.
    spec fn text_at(&self, key: K) -> String;

    fn get_numeric_value(&self, key: &K) -> (r: i32)
        requires
            key.numeric(),
        ensures
            r == self.number_at(*key),
    ;

    fn get_string_value(&self, key: &K) -> (r: String)
        requires
            !key.numeric(),
        ensures
            r@ == self.text_at(*key)@,
    ;
}

/// A sample type that can be loaded from a file, one batch per file.
pub trait FileSample<K: SerieKey>: Sample<K> {
    /// The samples that the file at `file_path` holds, in order, or a message
    /// that says why it could not be read.
    fn new_from_file_path(file_path: &str) -> Result<Vec<Self>, String>;
}

} // verus!
