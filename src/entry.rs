use vstd::prelude::*;

verus! {

/// One stored credential record. Entries carry no identity beyond their
/// position in the vault; names need not be unique.
#[derive(Debug, Clone)]
pub struct Entry {
    pub name: String,
    pub username: String,
    pub password: String,
}

/// The contents of an [`Entry`] as character sequences.
pub struct EntryView {
    pub name: Seq<char>,
    pub username: Seq<char>,
    pub password: Seq<char>,
}

impl View for Entry {
    type V = EntryView;

    open spec fn view(&self) -> EntryView {
        EntryView { name: self.name@, username: self.username@, password: self.password@ }
    }
}

impl Entry {
    /// Builds an entry from its three fields.
    pub fn new(name: &str, username: &str, password: &str) -> (r: Entry)
        ensures
            r.name@ == name@,
            r.username@ == username@,
            r.password@ == password@,
    {
        Entry { name: name.to_owned(), username: username.to_owned(), password: password.to_owned() }
    }

    /// A copy of this entry with the same contents.
    pub fn duplicate(&self) -> (r: Entry)
        ensures
            r@ == self@,
    {
        Entry { name: self.name.clone(), username: self.username.clone(), password: self.password.clone() }
    }
}

} // verus!
