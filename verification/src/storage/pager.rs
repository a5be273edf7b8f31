//! Fixed-size pages held in memory, numbered from 1.

use vstd::prelude::*;
use crate::error::{KkdbError, ErrorKind, Result};

verus! {

/// Bytes in a page.
pub const PAGE_SIZE: usize = 4096;

/// One page of bytes.
pub struct Page {
    pub data: Vec<u8>,
}

/// The pages of a database held in memory. Page `n` is `pages[n - 1]`;
/// number 0 names no page.
pub struct Pager {
    pub pages: Vec<Page>,
}

/// A page of zero bytes.
pub fn zero_page() -> (r: Page)
    ensures r.data@ == Seq::new(PAGE_SIZE as nat, |i: int| 0u8),
{
    let mut data: Vec<u8> = Vec::new();
    let mut i: usize = 0;
    while i < PAGE_SIZE
        invariant i <= PAGE_SIZE, data@ == Seq::new(i as nat, |k: int| 0u8),
        decreases PAGE_SIZE - i,
    {
        data.push(0u8);
        i += 1;
        assert(data@ =~= Seq::new(i as nat, |k: int| 0u8));
    }
    Page { data }
}

impl Pager {
    /// Whether `n` names a page.
    pub open spec fn has_page(&self, n: u32) -> bool {
        1 <= n <= self.pages@.len()
    }

    /// A pager without pages.
    pub fn open_memory() -> (r: Pager)
        ensures r.pages@.len() == 0,
    {
        Pager { pages: Vec::new() }
    }

    /// The number of pages.
    pub fn page_count(&self) -> (r: usize)
        ensures r == self.pages@.len(),
    {
        self.pages.len()
    }

    /// Adds a page of zero bytes and returns its number.
    pub fn allocate_page(&mut self) -> (r: Result<u32>)
        ensures
            r matches Ok(n) ==> n as int == old(self).pages@.len() + 1
                && final(self).pages@ == old(self).pages@.push(final(self).pages@.last())
                && final(self).pages@.last().data@ == Seq::new(PAGE_SIZE as nat, |i: int| 0u8),
            r is Err ==> *final(self) == *old(self),
            r is Ok <==> old(self).pages@.len() < u32::MAX,
    {
        if self.pages.len() >= 0xFFFF_FFFFusize {
            return Err(KkdbError::new(ErrorKind::Limit, "no page number is left"));
        }
        self.pages.push(zero_page());
        Ok(self.pages.len() as u32)
    }

    /// The page with number `n`.
    pub fn get_page(&self, n: u32) -> (r: Result<&Page>)
        ensures
            self.has_page(n) ==> (r matches Ok(p) && *p == self.pages@[n - 1]),
            !self.has_page(n) ==> r is Err,
    {
        if n >= 1 && (n as usize) <= self.pages.len() {
            Ok(&self.pages[(n - 1) as usize])
        } else {
            Err(KkdbError::new(ErrorKind::Limit, "no such page"))
        }
    }

    /// The page with number `n`, to change in place.
    pub fn get_page_mut(&mut self, n: u32) -> (r: Result<&mut Page>)
        ensures
            old(self).has_page(n) ==> (r matches Ok(p) && *p == old(self).pages@[n - 1]
                && final(self).pages@ == old(self).pages@.update(n - 1, *final(p))),
            !old(self).has_page(n) ==> r is Err && *final(self) == *old(self),
    {
        if n >= 1 && (n as usize) <= self.pages.len() {
            Ok(&mut self.pages[(n - 1) as usize])
        } else {
            Err(KkdbError::new(ErrorKind::Limit, "no such page"))
        }
    }

    /// Replaces the bytes of page `n`.
    pub fn write_page(&mut self, n: u32, data: Vec<u8>) -> (r: Result<()>)
        ensures
            old(self).has_page(n) ==> r is Ok && final(self).pages@ == old(self).pages@.update(n - 1, Page { data }),
            !old(self).has_page(n) ==> r is Err && *final(self) == *old(self),
    {
        if n >= 1 && (n as usize) <= self.pages.len() {
            self.pages.set((n - 1) as usize, Page { data });
            Ok(())
        } else {
            Err(KkdbError::new(ErrorKind::Limit, "no such page"))
        }
    }
}

} // verus!
