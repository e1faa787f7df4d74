use vstd::prelude::*;
use crate::archive::{Archive, member_at};
use crate::entry::Entry;

verus! {

/// The archived files of an archive, one after another in the table's order.
pub struct Entries<'a> {
    archive: &'a Archive,
    index: usize,
}

impl<'a> Entries<'a> {
    /// The archive walked through.
    pub closed spec fn spec_archive(&self) -> &'a Archive {
        self.archive
    }

    /// How many entries have been handed out.
    pub closed spec fn spec_index(&self) -> int {
        self.index as int
    }

    pub open spec fn wf(&self) -> bool {
        self.spec_archive().wf() && 0 <= self.spec_index() <= self.spec_archive().entries().len()
    }

    /// The files of `archive`, from the first entry of its table.
    pub fn new(archive: &'a Archive) -> (r: Self)
        requires
            archive.wf(),
        ensures
            r.wf(),
            r.spec_archive() == archive,
            r.spec_index() == 0,
    {
        Entries { archive, index: 0 }
    }

    /// The next archived file, or `None` after the last.
    pub fn next(&mut self) -> (r: Option<Entry>)
        requires
            old(self).wf(),
        ensures
            final(self).wf(),
            final(self).spec_archive() == old(self).spec_archive(),
            old(self).spec_index() == old(self).spec_archive().entries().len() ==> r is None
                && final(self).spec_index() == old(self).spec_index(),
            old(self).spec_index() < old(self).spec_archive().entries().len() ==> (r matches Some(e)
                && final(self).spec_index() == old(self).spec_index() + 1 && e.wf()
                && e.position() == 0 && e.spec_path() == old(self).spec_archive().entries()[old(
                self,
            ).spec_index()].0 && (e.spec_header(), e.payload()) == member_at(
                old(self).spec_archive().image(),
                old(self).spec_archive().entries()[old(self).spec_index()].1 as int,
            )),
    {
        let toc = self.archive.table();
        if self.index >= toc.len() {
            return None;
        }
        let (name, _) = toc.entry(self.index);
        let r = self.archive.get(name);
        self.index = self.index + 1;
        match r {
            Ok(e) => Some(e),
            Err(_) => None,
        }
    }
}

} // verus!
