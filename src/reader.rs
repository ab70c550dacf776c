use vstd::prelude::*;

use crate::record::span_is;

verus! {

/// Whether a file name is that of a partition file.
pub open spec fn is_event_log_name(name: Seq<char>) -> bool {
    name.len() >= 12 && name.subrange(name.len() - 12, name.len() as int) == ".events.json"@
}

/// Whether `name` is the name of a partition file: it ends in
/// `.events.json`.
pub fn is_event_log(name: &str) -> (r: bool)
    ensures
        r == is_event_log_name(name@),
{
    let n = name.unicode_len();
    if n < 12 {
        return false;
    }
    span_is(name, n - 12, n, ".events.json")
}

/// Reads the records stored under a root folder.
#[derive(Clone)]
pub struct EventReader {
    folder: String,
}

impl View for EventReader {
    type V = Seq<char>;

    /// The root folder.
    closed spec fn view(&self) -> Seq<char> {
        self.folder@
    }
}

impl EventReader {
    pub fn new(folder: &str) -> (r: EventReader)
        ensures
            r@ == folder@,
    {
        EventReader { folder: String::from_str(folder) }
    }

    /// The root folder.
    pub fn folder(&self) -> (r: &String)
        ensures
            r@ == self@,
    {
        &self.folder
    }
}

} // verus!
