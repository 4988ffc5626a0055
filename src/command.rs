use vstd::prelude::*;

verus! {

/// A command that an extension exposes to the host's command table.
pub struct CommandDescriptor<F> {
    pub name: String,
    pub doc: String,
    pub entry: F,
}

/// The contents of each list.
pub open spec fn list_views<T>(lists: Seq<Vec<T>>) -> Seq<Seq<T>> {
    lists.map_values(|l: Vec<T>| l@)
}

} // verus!
