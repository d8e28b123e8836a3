//! The pager: a cache of pages over the image of the database file.
//!
//! The pager holds what the file held when it was opened, as bytes: to read
//! the file before and to write the image back after is left to the caller. A
//! page is brought into the cache when it is first asked for and stays there
//! until the table is closed. Pages are written back to the image only by a
//! flush.

use vstd::prelude::*;
use vstd::pervasive::unreached;
use crate::bytes::{spec_copy, copy_bytes};
use crate::layout::{PAGE_SIZE, TABLE_MAX_PAGES};
use crate::node::is_page;

verus! {

/// The pager. `file` is the image of the file, `pages` the cache, one slot
/// for each page number that a database can have.
pub struct Pager {
    pub file: Vec<u8>,
    pub file_length: u32,
    pub num_pages: u32,
    pub pages: Vec<Option<Vec<u8>>>,
}

/// A run of `len` zero bytes.
pub open spec fn zeros(len: int) -> Seq<u8> {
    Seq::new(len as nat, |i: int| 0u8)
}

/// Page `n` of a file image.
pub open spec fn image_page(file: Seq<u8>, n: int) -> Seq<u8> {
    file.subrange(n * 4096, n * 4096 + 4096)
}

/// The image after page `n` was written to it: the file grows, by zero bytes,
/// as far as the page needs.
pub open spec fn spec_flush(file: Seq<u8>, n: int, page: Seq<u8>) -> Seq<u8> {
    let padded = if file.len() < n * 4096 + 4096 {
        file + zeros(n * 4096 + 4096 - file.len())
    } else {
        file
    };
    spec_copy(padded, n * 4096, page, 0, 4096)
}

impl Pager {
    /// The number of whole pages in the file image.
    pub open spec fn file_pages(self) -> int {
        self.file@.len() as int / 4096
    }

    /// What page `n` holds: the cached buffer, else the page of the file,
    /// else zero bytes.
    pub open spec fn page_view(self, n: int) -> Seq<u8> {
        if self.pages@[n] is Some {
            self.pages@[n]->0@
        } else if n < self.file_pages() {
            image_page(self.file@, n)
        } else {
            zeros(4096)
        }
    }

    /// What every page holds, by page number.
    pub open spec fn view(self) -> Seq<Seq<u8>> {
        Seq::new(100, |n: int| self.page_view(n))
    }

    /// The file is a whole number of pages, `num_pages` covers the file and
    /// every cached page, whose buffers have the size of a page, and the
    /// last page is cached where the file does not hold it.
    pub open spec fn wf(self) -> bool {
        &&& self.pages@.len() == 100
        &&& self.file@.len() == self.file_length
        &&& self.file_length % 4096 == 0
        &&& self.file_pages() <= self.num_pages <= 100
        &&& self.num_pages > self.file_pages() ==> self.pages@[self.num_pages - 1] is Some
        &&& forall|n: int|
            0 <= n < 100 && self.pages@[n] is Some ==> n < self.num_pages && is_page(
                (#[trigger] self.pages@[n])->0@,
            )
    }
}

/// A pager over the image of a file, with nothing cached.
///
/// The image must be a whole number of pages, and no more pages than the
/// pager has slots.
pub fn pager_open(file: Vec<u8>) -> (pager: Pager)
    requires
        file.len() % 4096 == 0,
        file.len() <= 100 * 4096,
    ensures
        pager.wf(),
        pager.file@ == file@,
        pager.num_pages == file.len() / 4096,
        forall|n: int| 0 <= n < 100 ==> pager.pages@[n] is None,
{
    let file_length: u32 = file.len() as u32;
    let mut pages: Vec<Option<Vec<u8>>> = Vec::new();
    let mut i: usize = 0;
    while i < TABLE_MAX_PAGES
        invariant
            i <= 100,
            pages@.len() == i,
            forall|n: int| 0 <= n < i ==> pages@[n] is None,
        decreases 100 - i,
    {
        pages.push(None);
        i += 1;
    }
    Pager { file, file_length, num_pages: file_length / PAGE_SIZE, pages }
}

/// A buffer of the size of a page that holds page `page_num` of the image
/// where the image has that page, and zero bytes where it has not.
fn load_page(file: &Vec<u8>, page_num: u32) -> (page: Vec<u8>)
    requires
        page_num < 100,
    ensures
        is_page(page@),
        page@ == if page_num < file@.len() as int / 4096 {
            image_page(file@, page_num as int)
        } else {
            zeros(4096)
        },
{
    let mut page: Vec<u8> = Vec::new();
    let mut i: usize = 0;
    while i < PAGE_SIZE as usize
        invariant
            i <= 4096,
            page@.len() == i,
            forall|j: int| 0 <= j < i ==> page@[j] == 0u8,
        decreases 4096 - i,
    {
        page.push(0u8);
        i += 1;
    }
    assert(page@ =~= zeros(4096));
    if (page_num as usize) < file.len() / (PAGE_SIZE as usize) {
        let start: usize = (page_num * PAGE_SIZE) as usize;
        copy_bytes(&mut page, 0, file, start, PAGE_SIZE as usize);
        assert(page@ =~= image_page(file@, page_num as int));
    }
    page
}

/// The buffer of page `page_num`, brought into the cache if it was not there.
///
/// What the pager holds does not change by the call itself; what the caller
/// writes to the buffer is what the page holds afterwards. `num_pages` rises
/// to cover the page.
pub fn get_page(pager: &mut Pager, page_num: u32) -> (page: &mut Vec<u8>)
    requires
        old(pager).wf(),
        page_num < 100,
    ensures
        page@ == old(pager)@[page_num as int],
        is_page(page@),
        final(pager).pages@ == old(pager).pages@.update(page_num as int, Some(*final(page))),
        final(pager)@ == old(pager)@.update(page_num as int, final(page)@),
        is_page(final(page)@) ==> final(pager).wf(),
        final(pager).file == old(pager).file,
        final(pager).file_length == old(pager).file_length,
        final(pager).num_pages == if page_num >= old(pager).num_pages {
            (page_num + 1) as u32
        } else {
            old(pager).num_pages
        },
{
    let n = page_num as usize;
    if pager.pages[n].is_none() {
        let page = load_page(&pager.file, page_num);
        pager.pages[n] = Some(page);
        if page_num >= pager.num_pages {
            pager.num_pages = page_num + 1;
        }
    }
    assert(pager.pages@ =~= old(pager).pages@.update(page_num as int, pager.pages@[n as int]));
    assert(pager@ =~= old(pager)@);
    let ghost mid = *pager;
    let page = match &mut pager.pages[n] {
        Some(page) => page,
        None => unreached(),
    };
    proof {
        lemma_slot_update(mid, page_num as int, *final(page));
    }
    page
}

/// Replacing the buffer of a cached page changes what that page holds and
/// nothing else.
pub proof fn lemma_slot_update(pager: Pager, n: int, buffer: Vec<u8>)
    requires
        pager.wf(),
        0 <= n < 100,
        pager.pages@[n] is Some,
    ensures
        forall|after: Pager|
            after.pages@ == pager.pages@.update(n, Some(buffer)) && after.file == pager.file
                && after.file_length == pager.file_length && after.num_pages == pager.num_pages
                ==> #[trigger] after@ == pager@.update(n, buffer@) && (is_page(buffer@)
                ==> after.wf()),
{
    assert forall|after: Pager|
        after.pages@ == pager.pages@.update(n, Some(buffer)) && after.file == pager.file
            && after.file_length == pager.file_length && after.num_pages
            == pager.num_pages implies #[trigger] after@ == pager@.update(n, buffer@) && (is_page(
        buffer@,
    ) ==> after.wf()) by {
        assert(after@ =~= pager@.update(n, buffer@));
    }
}

/// The buffer of page `page_num`, for reading, brought into the cache if it
/// was not there.
pub fn read_page(pager: &mut Pager, page_num: u32) -> (page: &Vec<u8>)
    requires
        old(pager).wf(),
        page_num < 100,
    ensures
        page@ == old(pager)@[page_num as int],
        is_page(page@),
        final(pager).wf(),
        final(pager)@ == old(pager)@,
        final(pager).file == old(pager).file,
        final(pager).num_pages == if page_num >= old(pager).num_pages {
            (page_num + 1) as u32
        } else {
            old(pager).num_pages
        },
{
    let page = get_page(pager, page_num);
    assert(old(pager)@.update(page_num as int, page@) =~= old(pager)@);
    &*page
}

/// The page number that the next new page gets: pages are only ever added at
/// the end.
pub fn get_unused_page_num(pager: &Pager) -> (page_num: u32)
    ensures
        page_num == pager.num_pages,
{
    pager.num_pages
}

/// Writes the cached page `page_num` to the file image at its place.
///
/// The page must be in the cache. The cache stays as it is, and so does what
/// every page holds.
pub fn pager_flush(pager: &mut Pager, page_num: u32)
    requires
        old(pager).wf(),
        page_num < 100,
        old(pager).pages@[page_num as int] is Some,
    ensures
        final(pager).wf(),
        final(pager).file@ == spec_flush(
            old(pager).file@,
            page_num as int,
            old(pager).pages@[page_num as int]->0@,
        ),
        final(pager).pages == old(pager).pages,
        final(pager).num_pages == old(pager).num_pages,
        final(pager)@ == old(pager)@,
{
    let start: usize = (page_num * PAGE_SIZE) as usize;
    let end: usize = (page_num * PAGE_SIZE + PAGE_SIZE) as usize;
    while pager.file.len() < end
        invariant
            end == page_num * 4096 + 4096,
            pager.pages == old(pager).pages,
            pager.num_pages == old(pager).num_pages,
            old(pager).file@.len() <= pager.file@.len(),
            pager.file@.len() <= old(pager).file@.len() || pager.file@.len() <= end,
            pager.file@ == old(pager).file@ + zeros(pager.file@.len() - old(pager).file@.len()),
        decreases end - pager.file.len(),
    {
        pager.file.push(0u8);
        assert(pager.file@ =~= old(pager).file@ + zeros(
            pager.file@.len() - old(pager).file@.len(),
        ));
    }
    assert(old(pager).file@ =~= old(pager).file@ + zeros(0));
    let ghost padded = pager.file@;
    match &pager.pages[page_num as usize] {
        Some(page) => {
            copy_bytes(&mut pager.file, start, page, 0, PAGE_SIZE as usize);
        },
        None => {},
    }
    pager.file_length = pager.file.len() as u32;
    proof {
        let page = old(pager).pages@[page_num as int]->0@;
        assert(pager.file@ == spec_copy(padded, start as int, page, 0, 4096));
        assert forall|n: int| 0 <= n < 100 implies pager.page_view(n) == old(pager).page_view(
            n,
        ) by {
            if pager.pages@[n] is None {
                if n < old(pager).file_pages() {
                    assert(image_page(pager.file@, n) =~= image_page(old(pager).file@, n));
                } else if n < pager.file_pages() {
                    assert(image_page(pager.file@, n) =~= zeros(4096));
                }
            }
        }
        assert(pager@ =~= old(pager)@);
    }
}

} // verus!
