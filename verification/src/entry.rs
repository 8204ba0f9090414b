use vstd::prelude::*;
use crate::dir::{Dir, DirView};
use crate::file::{File, FileView};
use crate::metadata::Metadata;

verus! {

/// An entry of a directory: a file or a directory.
#[derive(Debug)]
pub enum Entry {
    File(File),
    Dir(Dir),
}

/// What an entry is, as plain values.
pub enum EntryView {
    File(FileView),
    Dir(DirView),
}

impl EntryView {
    /// The name of the entry.
    pub open spec fn name(self) -> Seq<char> {
        match self {
            EntryView::File(f) => f.name,
            EntryView::Dir(d) => d.name,
        }
    }

    /// The metadata of the entry.
    pub open spec fn metadata(self) -> Metadata {
        match self {
            EntryView::File(f) => f.metadata,
            EntryView::Dir(d) => d.metadata,
        }
    }
}

impl View for Entry {
    type V = EntryView;

    open spec fn view(&self) -> EntryView {
        match *self {
            Entry::File(f) => EntryView::File(f@),
            Entry::Dir(d) => EntryView::Dir(d@),
        }
    }
}

impl Entry {
    /// The name of the file or directory.
    pub fn name(&self) -> (s: &str)
        ensures
            s@ == self@.name(),
    {
        match self {
            Entry::File(file) => file.name.as_str(),
            Entry::Dir(dir) => dir.name.as_str(),
        }
    }

    /// The metadata of the file or directory.
    pub fn metadata(&self) -> (m: &Metadata)
        ensures
            *m == self@.metadata(),
    {
        match self {
            Entry::File(file) => &file.metadata,
            Entry::Dir(dir) => &dir.metadata,
        }
    }

    /// The file, if this entry is one.
    pub fn as_file(&self) -> (r: Option<&File>)
        ensures
            match *self {
                Entry::File(f) => r == Some(&f),
                Entry::Dir(_) => r is None,
            },
    {
        match self {
            Entry::File(file) => Some(file),
            Entry::Dir(_) => None,
        }
    }

    /// The directory, if this entry is one.
    pub fn as_dir(&self) -> (r: Option<&Dir>)
        ensures
            match *self {
                Entry::File(_) => r is None,
                Entry::Dir(d) => r == Some(&d),
            },
    {
        match self {
            Entry::File(_) => None,
            Entry::Dir(dir) => Some(dir),
        }
    }

    /// Turns the entry into the file that it is, if it is one.
    pub fn into_file(self) -> (r: Option<File>)
        ensures
            match self {
                Entry::File(f) => r == Some(f),
                Entry::Dir(_) => r is None,
            },
    {
        match self {
            Entry::File(file) => Some(file),
            Entry::Dir(_) => None,
        }
    }

    /// Turns the entry into the directory that it is, if it is one.
    pub fn into_dir(self) -> (r: Option<Dir>)
        ensures
            match self {
                Entry::File(_) => r is None,
                Entry::Dir(d) => r == Some(d),
            },
    {
        match self {
            Entry::File(_) => None,
            Entry::Dir(dir) => Some(dir),
        }
    }

    /// Whether the entry is a file.
    pub fn is_file(&self) -> (b: bool)
        ensures
            b == (self is File),
    {
        match self {
            Entry::File(_) => true,
            Entry::Dir(_) => false,
        }
    }

    /// Whether the entry is a directory.
    pub fn is_dir(&self) -> (b: bool)
        ensures
            b == (self is Dir),
    {
        match self {
            Entry::File(_) => false,
            Entry::Dir(_) => true,
        }
    }
}

} // verus!
