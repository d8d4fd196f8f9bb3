//! The file store: a read-only table from filename to content bytes.
//!
//! Filenames match exactly, with no path semantics. The store is populated
//! before a server starts and is never mutated during a session; every
//! worker answers requests from the same table.

use vstd::prelude::*;

use crate::wire::bytes_eq;

verus! {

/// One file held by the store: a name and its immutable content.
pub struct FileEntry {
    pub name: Vec<u8>,
    pub content: Vec<u8>,
}

/// The map represented by a sequence of entries: a later entry for the same
/// name overrides an earlier one.
pub open spec fn entries_map(s: Seq<FileEntry>) -> Map<Seq<u8>, Seq<u8>>
    decreases s.len(),
{
    if s.len() == 0 {
        Map::empty()
    } else {
        entries_map(s.drop_last()).insert(s.last().name@, s.last().content@)
    }
}

/// The read-only file table a server answers requests from.
pub struct ServerFiles {
    pub entries: Vec<FileEntry>,
}

impl View for ServerFiles {
    type V = Map<Seq<u8>, Seq<u8>>;

    open spec fn view(&self) -> Map<Seq<u8>, Seq<u8>> {
        entries_map(self.entries@)
    }
}

impl ServerFiles {
    /// An empty store: no filename can be looked up in it.
    pub fn new() -> (s: ServerFiles)
        ensures
            s@ == Map::<Seq<u8>, Seq<u8>>::empty(),
    {
        ServerFiles { entries: Vec::new() }
    }

    /// Add one file, overriding any earlier entry for the same name.
    pub fn add_file(&mut self, name: Vec<u8>, content: Vec<u8>)
        ensures
            final(self)@ == old(self)@.insert(name@, content@),
    {
        let ghost pre = self.entries@;
        self.entries.push(FileEntry { name, content });
        proof {
            assert(self.entries@.drop_last() =~= pre);
        }
    }

    /// Look a filename up: the content if the name is present, `None` if not.
    pub fn lookup(&self, name: &Vec<u8>) -> (r: Option<&Vec<u8>>)
        ensures
            self@.contains_key(name@) ==> (r matches Some(c) && c@ == self@[name@]),
            !self@.contains_key(name@) ==> r is None,
    {
        proof {
            assert(self.entries@.take(self.entries@.len() as int) =~= self.entries@);
        }
        let mut i: usize = self.entries.len();
        while i > 0
            invariant
                i <= self.entries.len(),
                entries_map(self.entries@).contains_key(name@) == entries_map(
                    self.entries@.take(i as int),
                ).contains_key(name@),
                entries_map(self.entries@).contains_key(name@) ==> entries_map(
                    self.entries@.take(i as int),
                )[name@] == entries_map(self.entries@)[name@],
            decreases i,
        {
            i = i - 1;
            proof {
                assert(self.entries@.take(i as int + 1).drop_last() =~= self.entries@.take(
                    i as int,
                ));
                assert(self.entries@.take(i as int + 1).last() == self.entries@[i as int]);
            }
            let e = &self.entries[i];
            if bytes_eq(&e.name, name) {
                return Some(&e.content);
            }
        }
        proof {
            assert(self.entries@.take(0) =~= Seq::<FileEntry>::empty());
        }
        None
    }
}

} // verus!
