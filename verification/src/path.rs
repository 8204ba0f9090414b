use vstd::prelude::*;
use crate::dir::{find_spec, root_dir};
use crate::entry::EntryView;
use crate::error::ErrorKind;
use crate::model::{chain_bytes, Geometry};

verus! {

/// A component of a path.
#[derive(Debug)]
pub enum Component {
    /// The root of the volume: the `/` at the start of an absolute path.
    RootDir,
    /// The directory itself: `.`.
    CurDir,
    /// The directory above: `..`.
    ParentDir,
    /// The name of a file or directory.
    Normal(String),
    /// A drive or volume prefix in front of the root.
    Prefix,
}

/// Where the walk along `parts` ends that stands at the entry `cur`.
///
/// `first` says that no root was passed yet. A root only says that the
/// path is absolute. Any other component before the first root is
/// `InvalidInput`. A name is looked up in the directory that the walk
/// stands at, and the walk moves on to what is found there; a name behind a
/// file is `NotFound`. `.`, `..` and a prefix are `InvalidInput`.
pub open spec fn resolve(
    geo: Geometry,
    disk: Map<u64, Seq<u8>>,
    cur: EntryView,
    first: bool,
    parts: Seq<Component>,
) -> Result<EntryView, ErrorKind>
    decreases parts.len(),
{
    if parts.len() == 0 {
        Ok(cur)
    } else {
        match parts[0] {
            Component::RootDir => resolve(geo, disk, cur, false, parts.drop_first()),
            Component::Normal(name) => if first {
                Err(ErrorKind::InvalidInput)
            } else {
                match cur {
                    EntryView::File(_) => Err(ErrorKind::NotFound),
                    EntryView::Dir(d) => match find_spec(
                        chain_bytes(geo, disk, d.cluster, usize::MAX as nat),
                        name@,
                    ) {
                        Err(e) => Err(e),
                        Ok(found) => resolve(geo, disk, found, false, parts.drop_first()),
                    },
                }
            },
            _ => Err(ErrorKind::InvalidInput),
        }
    }
}

/// The entry that the path `parts` leads to from the root directory.
pub open spec fn open_spec(geo: Geometry, disk: Map<u64, Seq<u8>>, parts: Seq<Component>) -> Result<
    EntryView,
    ErrorKind,
> {
    resolve(geo, disk, EntryView::Dir(root_dir(geo.root_dir_cluster)), true, parts)
}

} // verus!
