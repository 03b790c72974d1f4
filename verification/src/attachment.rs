use vstd::prelude::*;

use crate::checksum::{rotate32, rotl32};

verus! {

/// An attachment page: its tag and its bytes.
pub ghost struct PageModel {
    pub tag: u16,
    pub bytes: Seq<u8>,
}

/// The pages of an arena, and the snapshots taken of them.
pub ghost struct ArenaModel {
    pub pages: Seq<PageModel>,
    pub snapshots: Seq<PageModel>,
}

/// The page stored for `bytes`: an empty attachment is stored as one zero byte.
pub open spec fn page_of(tag: u16, bytes: Seq<u8>) -> PageModel {
    PageModel { tag, bytes: if bytes.len() == 0 { seq![0u8] } else { bytes } }
}

/// The checksum of a page after its first `n` bytes.
pub open spec fn page_checksum_prefix(p: PageModel, n: nat) -> u32
    decreases n,
{
    if n == 0 {
        p.tag as u32
    } else {
        rotl32(page_checksum_prefix(p, (n - 1) as nat), 3) ^ (p.bytes[n - 1] as u32)
    }
}

/// The checksum of a page: its tag folded with its first 32 bytes at most.
pub open spec fn page_checksum(p: PageModel) -> u32 {
    page_checksum_prefix(p, if p.bytes.len() < 32 { p.bytes.len() } else { 32 })
}

/// The arena after a page is added; the oldest page is dropped when 65 are held.
pub open spec fn arena_add(a: ArenaModel, tag: u16, bytes: Seq<u8>) -> ArenaModel {
    let kept = if a.pages.len() > 64 { a.pages.remove(0) } else { a.pages };
    ArenaModel { pages: kept.push(page_of(tag, bytes)), snapshots: a.snapshots }
}

/// The marker page written for a snapshot request that cannot be honoured.
pub open spec fn marker_bytes(flags: u8, tag_hint: u16) -> Seq<u8> {
    seq![flags, (tag_hint & 0xff) as u8, (tag_hint >> 8u16) as u8]
}

/// The arena after a snapshot of the last page is asked for.
pub open spec fn arena_snapshot(a: ArenaModel, tag_hint: u16, flags: u8) -> ArenaModel {
    if a.pages.len() == 0 {
        a
    } else {
        let last = a.pages.last();
        if flags & 0x40 != 0 && last.bytes.len() > 31 && (last.tag ^ tag_hint) & 0x000f == 0 {
            ArenaModel { pages: a.pages, snapshots: a.snapshots.push(last) }
        } else if flags & 0x04 != 0 {
            arena_add(a, tag_hint, marker_bytes(flags, tag_hint))
        } else {
            a
        }
    }
}

/// The pages left after dropping pages from the top until one with the tag is on top.
pub open spec fn rolled_back(pages: Seq<PageModel>, tag: u16) -> Seq<PageModel>
    decreases pages.len(),
{
    if pages.len() == 0 || pages.last().tag == tag {
        pages
    } else {
        rolled_back(pages.drop_last(), tag)
    }
}

/// What a rollback leaves is a prefix of the pages it started from, and either
/// nothing or a page with the tag on top.
pub proof fn lemma_rolled_back_prefix(pages: Seq<PageModel>, tag: u16)
    ensures
        rolled_back(pages, tag).len() <= pages.len(),
        rolled_back(pages, tag) == pages.subrange(0, rolled_back(pages, tag).len() as int),
        rolled_back(pages, tag).len() == 0 || rolled_back(pages, tag).last().tag == tag,
    decreases pages.len(),
{
    if pages.len() == 0 || pages.last().tag == tag {
        assert(pages.subrange(0, pages.len() as int) =~= pages);
    } else {
        lemma_rolled_back_prefix(pages.drop_last(), tag);
        let r = rolled_back(pages.drop_last(), tag);
        assert(pages.drop_last().subrange(0, r.len() as int) =~= pages.subrange(0, r.len() as int));
    }
}

/// No operation of an arena lets it hold more than 65 pages.
pub proof fn lemma_arena_pages_bounded(a: ArenaModel, tag: u16, flags: u8, bytes: Seq<u8>)
    requires
        a.pages.len() <= 65,
    ensures
        arena_add(a, tag, bytes).pages.len() <= 65,
        arena_snapshot(a, tag, flags).pages.len() <= 65,
        rolled_back(a.pages, tag).len() <= 65,
{
    lemma_rolled_back_prefix(a.pages, tag);
}

/// The page just added is on top of the arena, and the snapshots are untouched.
pub proof fn lemma_arena_add_on_top(a: ArenaModel, tag: u16, bytes: Seq<u8>)
    ensures
        arena_add(a, tag, bytes).pages.last() == page_of(tag, bytes),
        arena_add(a, tag, bytes).snapshots == a.snapshots,
{
}

struct Page {
    bytes: Vec<u8>,
    tag: u16,
}

impl View for Page {
    type V = PageModel;

    closed spec fn view(&self) -> PageModel {
        PageModel { tag: self.tag, bytes: self.bytes@ }
    }
}

impl Page {
    fn allocate(tag: u16, bytes: &[u8]) -> (p: Self)
        ensures
            p@ == page_of(tag, bytes@),
    {
        let mut owned = vstd::slice::slice_to_vec(bytes);
        if owned.len() == 0 {
            owned.push(0);
            assert(owned@ =~= seq![0u8]);
        }
        Page { bytes: owned, tag }
    }

    fn shallow_snapshot(&self) -> (p: Self)
        ensures
            p@ == self@,
    {
        Page { bytes: vstd::slice::slice_to_vec(self.bytes.as_slice()), tag: self.tag }
    }

    fn checksum(&self) -> (h: u32)
        ensures
            h == page_checksum(self@),
    {
        let mut h = self.tag as u32;
        let n = if self.bytes.len() < 32 {
            self.bytes.len()
        } else {
            32
        };
        let mut idx: usize = 0;
        while idx < n
            invariant
                idx <= n,
                n <= self.bytes@.len(),
                n == (if self@.bytes.len() < 32 { self@.bytes.len() } else { 32 }),
                h == page_checksum_prefix(self@, idx as nat),
            decreases n - idx,
        {
            h = rotate32(h, 3) ^ self.bytes[idx] as u32;
            idx = idx + 1;
        }
        h
    }
}

/// The attachment pages of a journal, with their snapshots.
pub struct AttachmentArena {
    pages: Vec<Page>,
    snapshots: Vec<Page>,
}

impl View for AttachmentArena {
    type V = ArenaModel;

    closed spec fn view(&self) -> ArenaModel {
        ArenaModel {
            pages: self.pages@.map_values(|p: Page| p@),
            snapshots: self.snapshots@.map_values(|p: Page| p@),
        }
    }
}

impl Default for AttachmentArena {
    fn default() -> (a: Self)
        ensures
            a@.pages.len() == 0,
            a@.snapshots.len() == 0,
    {
        Self::new()
    }
}

impl AttachmentArena {
    pub fn new() -> (a: Self)
        ensures
            a@.pages.len() == 0,
            a@.snapshots.len() == 0,
    {
        AttachmentArena { pages: Vec::new(), snapshots: Vec::new() }
    }

    /// Adds a page and gives back its checksum.
    pub fn add_page(&mut self, tag: u16, bytes: &[u8]) -> (h: u32)
        ensures
            final(self)@ == arena_add(old(self)@, tag, bytes@),
            h == page_checksum(page_of(tag, bytes@)),
    {
        let ghost pre = self.pages@;
        if self.pages.len() > 64 {
            self.pages.remove(0);
        }
        let page = Page::allocate(tag, bytes);
        let h = page.checksum();
        let ghost pv = page@;
        self.pages.push(page);
        proof {
            let kept = if pre.len() > 64 { pre.remove(0) } else { pre };
            assert(self.pages@ == kept.push(page));
            assert(self.pages@.map_values(|p: Page| p@) =~= kept.map_values(|p: Page| p@).push(
                pv,
            ));
            if pre.len() > 64 {
                assert(pre.remove(0).map_values(|p: Page| p@) =~= pre.map_values(|p: Page| p@).remove(
                    0,
                ));
            }
        }
        h
    }

    /// Takes a snapshot of the last page where the flags ask for one and the page
    /// qualifies; otherwise, where the flags ask for it, adds a marker page.
    pub fn snapshot_last(&mut self, tag_hint: u16, flags: u8)
        ensures
            final(self)@ == arena_snapshot(old(self)@, tag_hint, flags),
    {
        let n = self.pages.len();
        if n > 0 {
            let last = &self.pages[n - 1];
            assert(self@.pages.last() == last@);
            if flags & 0x40 != 0 && last.bytes.len() > 31 && (last.tag ^ tag_hint) & 0x000f == 0 {
                let copy = last.shallow_snapshot();
                let ghost pre = self.snapshots@;
                self.snapshots.push(copy);
                assert(self@.snapshots =~= old(self)@.snapshots.push(copy@));
                assert(self@.pages =~= old(self)@.pages);
            } else if flags & 0x04 != 0 {
                let marker: [u8; 3] = [flags, (tag_hint & 0xff) as u8, (tag_hint >> 8) as u8];
                assert(marker@ =~= marker_bytes(flags, tag_hint));
                self.add_page(tag_hint, &marker);
            }
        }
    }

    /// Drops pages from the top until one with the tag is on top, or none is left.
    pub fn rollback_to(&mut self, tag: u16)
        ensures
            final(self)@.pages == rolled_back(old(self)@.pages, tag),
            final(self)@.snapshots == old(self)@.snapshots,
    {
        while self.pages.len() > 0 && self.pages[self.pages.len() - 1].tag != tag
            invariant
                rolled_back(self@.pages, tag) == rolled_back(old(self)@.pages, tag),
                self@.snapshots == old(self)@.snapshots,
            decreases self.pages.len(),
        {
            let ghost pre = self.pages@;
            assert(self@.pages.last().tag != tag);
            self.pages.pop();
            assert(self.pages@ =~= pre.drop_last());
            assert(self.pages@.map_values(|p: Page| p@) =~= pre.map_values(|p: Page| p@).drop_last());
        }
    }

    /// The number of pages and snapshots held.
    pub fn len(&self) -> (n: usize)
        requires
            self@.pages.len() + self@.snapshots.len() <= usize::MAX,
        ensures
            n == self@.pages.len() + self@.snapshots.len(),
    {
        self.pages.len() + self.snapshots.len()
    }
}

} // verus!
