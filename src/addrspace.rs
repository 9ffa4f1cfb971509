use vstd::prelude::*;

use crate::allocator::{fresh_frame, lemma_alloc_uses_one, lemma_not_exhausted, PhysicalFrameAllocator};
use crate::frame::Frame;
use crate::page::{lemma_indices_recombine, Page};
use crate::tables::{
    fits_entry, frame_of_word, frame_view, lemma_empty_word, lemma_new_word,
    lemma_same_path_indices, lemma_same_path_refl, new_word, same_path, word_frame, word_index, word_owns, word_target,
    PageEntryFlags, PageLevel, PageTable,
};

verus! {

/// A virtual address space: either unbacked, or the owner of a root table
/// (held in its frame) and, through it, of every table below and of every
/// frame that a present, unshared bottom-level entry maps.
pub struct AddressSpace {
    tables: Option<(Frame, Box<PageTable>)>,
}

impl AddressSpace {
    /// Whether the root table, if any, is a consistent table of the top
    /// level.
    pub closed spec fn wf(self) -> bool {
        self.tables matches Some((_, t)) ==> t.wf() && t.level_spec() == PageLevel::Level4
    }

    /// Whether no root table exists yet.
    pub closed spec fn unbacked(self) -> bool {
        self.tables is None
    }

    /// The bottom-level entry that virtual address `a` selects, or zero if a
    /// table on the way is missing.
    pub closed spec fn word_at(self, a: u64) -> u64 {
        match self.tables {
            Some((_, t)) => t.word_at(a),
            None => 0,
        }
    }

    /// How many tables (the root included) are missing on the way to the
    /// bottom-level entry that virtual address `a` selects.
    pub closed spec fn missing(self, a: u64) -> nat {
        match self.tables {
            Some((_, t)) => t.missing(a),
            None => 4,
        }
    }

    /// Whether frame number `j` holds one of this address space's tables.
    pub closed spec fn holds_table(self, j: int) -> bool {
        match self.tables {
            Some((f, t)) => f.index() == j || t.holds_table(j),
            None => false,
        }
    }

    /// Whether frame number `j` is owned by a bottom-level entry: one that is
    /// present, not shared, and maps it.
    pub open spec fn owns_leaf(self, j: int) -> bool {
        exists|a: u64| #[trigger] word_owns(self.word_at(a)) && word_index(self.word_at(a)) == j
    }

    /// The frame that virtual address `a` translates to.
    pub open spec fn translation(self, a: u64) -> Option<u64> {
        word_frame(self.word_at(a))
    }

    /// Whether `after` is `before` with the bottom-level entry that `page`
    /// selects set to `word`, and every other entry as it was.
    pub open spec fn remapped(before: Self, after: Self, page: u64, word: u64) -> bool {
        forall|a: u64| #[trigger]
            after.word_at(a) == if same_path(PageLevel::Level4, a, page) {
                word
            } else {
                before.word_at(a)
            }
    }

    /// Creates an empty address space, with no tables.
    pub fn new() -> (r: AddressSpace)
        ensures
            r.wf(),
            r.unbacked(),
            forall|a: u64| #[trigger] r.word_at(a) == 0,
            forall|j: int| !#[trigger] r.holds_table(j),
    {
        AddressSpace { tables: None }
    }

    /// Translates a virtual page into the physical frame it maps to, if any.
    pub fn translate(&self, addr: Page) -> (r: Option<Frame>)
        requires
            self.wf(),
        ensures
            frame_view(r) == self.translation(addr@),
    {
        match &self.tables {
            Some((_, t)) => {
                let w = t.lookup(&addr);
                frame_of_word(w)
            },
            None => {
                proof {
                    lemma_empty_word();
                }
                None
            },
        }
    }

    /// Returns how many tables `map` has to allocate to reach the
    /// bottom-level entry of `page`: the root included, at most four.
    pub fn tables_needed(&self, page: Page) -> (r: usize)
        requires
            self.wf(),
        ensures
            r == self.missing(page@),
            r <= 4,
    {
        match &self.tables {
            Some((_, t)) => t.missing_tables(&page),
            None => 4,
        }
    }

    /// Maps `virt` to `phys` with `flags`, returning the frame that its
    /// bottom-level entry held before (present or not). The root table and
    /// the tables on the way are allocated from `alloc` where missing.
    ///
    /// With `phys` absent and no flags this unmaps `virt`. Marking an entry
    /// present without a frame is refused, and `alloc` must have as many
    /// available frames as tables are missing. The caller must ensure that
    /// the swap does not break what other code assumes of the memory that
    /// the entry controls.
    pub fn map(
        &mut self,
        virt: Page,
        phys: Option<Frame>,
        flags: PageEntryFlags,
        alloc: &mut PhysicalFrameAllocator,
    ) -> (r: Option<Frame>)
        requires
            old(self).wf(),
            old(alloc).wf(),
            old(alloc).free_count() >= old(self).missing(virt@),
            !(phys is None && flags@ & 1 == 1),
            fits_entry(phys),
        ensures
            final(self).wf(),
            Self::remapped(*old(self), *final(self), virt@, new_word(phys, flags@)),
            frame_view(r) == word_target(old(self).word_at(virt@)),
            final(alloc).wf(),
            final(alloc)@.len() == old(alloc)@.len(),
            final(alloc).free_count() + old(self).missing(virt@) == old(alloc).free_count(),
            forall|j: int|
                0 <= j < old(alloc).frame_count() && #[trigger] old(alloc).used(j)
                    ==> final(alloc).used(j),
            forall|j: int| #[trigger]
                final(self).holds_table(j) == (old(self).holds_table(j) || fresh_frame(
                    *old(alloc),
                    *final(alloc),
                    j,
                )),
    {
        let ghost before_alloc = *alloc;
        let ghost before = *self;
        let taken = self.tables.take();
        let (root, mut table) = match taken {
            Some(pair) => {
                proof {
                    assert forall|j: int| !#[trigger] fresh_frame(before_alloc, *alloc, j) by {}
                }
                pair
            },
            None => {
                proof {
                    lemma_not_exhausted(*alloc);
                }
                let f = alloc.alloc_frame().unwrap();
                proof {
                    lemma_alloc_uses_one(before_alloc, *alloc, f);
                    assert forall|j: int| #[trigger]
                        fresh_frame(before_alloc, *alloc, j) == (f.index() == j) by {}
                }
                (f, Box::new(PageTable::new(PageLevel::Level4)))
            },
        };
        let ghost mid_alloc = *alloc;
        let ghost table0: PageTable = *table;
        let r = table.map_in(&virt, phys, flags, alloc);
        self.tables = Some((root, table));
        proof {
            assert forall|j: int| 0 <= j < before_alloc.frame_count() && #[trigger] before_alloc.used(j)
                implies alloc.used(j) by {
                assert(mid_alloc.used(j));
            }
            assert forall|j: int| #[trigger]
                fresh_frame(before_alloc, *alloc, j) == (fresh_frame(before_alloc, mid_alloc, j)
                    || fresh_frame(mid_alloc, *alloc, j)) by {
                if 0 <= j < before_alloc.frame_count() && before_alloc.used(j) {
                    assert(mid_alloc.used(j));
                }
            }
            if before.tables is None {
                lemma_empty_word();
                assert forall|a: u64| #[trigger] table0.word_at(a) == before.word_at(a) by {}
            }
        }
        r
    }

    /// Releases every frame this address space owns to `alloc`: the tables
    /// below the root, each frame that a present, unshared bottom-level
    /// entry maps, and then the root table's own frame. Frames that `alloc`
    /// does not cover are left alone.
    pub fn release(self, alloc: &mut PhysicalFrameAllocator)
        requires
            self.wf(),
            old(alloc).wf(),
        ensures
            final(alloc).wf(),
            final(alloc)@.len() == old(alloc)@.len(),
            forall|j: int|
                0 <= j < old(alloc).frame_count() ==> #[trigger] final(alloc).used(j) == (old(
                    alloc,
                ).used(j) && !self.holds_table(j) && !self.owns_leaf(j)),
    {
        let ghost start = *alloc;
        let ghost space = self;
        match self.tables {
            Some((root, table)) => {
                let t: PageTable = *table;
                t.release(alloc);
                let ghost mid = *alloc;
                if alloc.covers(root) {
                    alloc.dealloc(root);
                }
                proof {
                    assert forall|j: int| 0 <= j < start.frame_count() implies #[trigger] alloc.used(j)
                        == (start.used(j) && !space.holds_table(j) && !space.owns_leaf(j)) by {
                        assert(space.owns_leaf(j) == t.owns_leaf(j)) by {
                            if space.owns_leaf(j) {
                                let a = choose|a: u64|
                                    #[trigger] word_owns(space.word_at(a)) && word_index(space.word_at(a)) == j;
                                assert(word_owns(t.word_at(a)));
                            }
                            if t.owns_leaf(j) {
                                let a = choose|a: u64|
                                    #[trigger] word_owns(t.word_at(a)) && word_index(t.word_at(a)) == j;
                                assert(word_owns(space.word_at(a)));
                            }
                        }
                    }
                }
            },
            None => {
                proof {
                    lemma_empty_word();
                }
            },
        }
    }
}

/// Mapping a page to a frame with the present flag, and then translating
/// that page, gives the frame back.
pub proof fn lemma_translate_after_map(
    before: AddressSpace,
    after: AddressSpace,
    page: Page,
    frame: Frame,
    flags: PageEntryFlags,
)
    requires
        AddressSpace::remapped(before, after, page@, new_word(Some(frame), flags@)),
        flags@ & 1 == 1,
        flags@ & 0xffff_ffff_ffff_fde0 == 0,
        frame@ != 0,
        frame@ % 4096 == 0,
        fits_entry(Some(frame)),
    ensures
        after.translation(page@) == Some(frame@),
{
    lemma_same_path_refl(PageLevel::Level4, page@);
    lemma_new_word(Some(frame), flags@);
    assert(after.word_at(page@) == new_word(Some(frame), flags@));
}

/// Unmapping a page that maps a frame (no frame, no flags) returns that
/// frame, and the page then translates to nothing.
pub proof fn lemma_unmap_after_map(
    before: AddressSpace,
    after: AddressSpace,
    page: Page,
    frame: Frame,
    returned: Option<Frame>,
)
    requires
        before.translation(page@) == Some(frame@),
        AddressSpace::remapped(before, after, page@, new_word(None, 0)),
        frame_view(returned) == word_target(before.word_at(page@)),
    ensures
        frame_view(returned) == Some(frame@),
        after.translation(page@) is None,
{
    lemma_same_path_refl(PageLevel::Level4, page@);
    lemma_empty_word();
    assert(0u64 | 0u64 == 0) by (bit_vector);
    assert(after.word_at(page@) == 0);
}

/// Mapping two distinct pages of the 48-bit virtual address space to two
/// distinct frames leaves them translating to those two distinct frames.
pub proof fn lemma_distinct_pages(
    s0: AddressSpace,
    s1: AddressSpace,
    s2: AddressSpace,
    p: Page,
    q: Page,
    f: Frame,
    g: Frame,
    pf: PageEntryFlags,
    qf: PageEntryFlags,
)
    requires
        AddressSpace::remapped(s0, s1, p@, new_word(Some(f), pf@)),
        AddressSpace::remapped(s1, s2, q@, new_word(Some(g), qf@)),
        p@ != q@,
        p@ % 4096 == 0,
        q@ % 4096 == 0,
        p@ < 0x1_0000_0000_0000,
        q@ < 0x1_0000_0000_0000,
        f@ != g@,
        pf@ & 1 == 1,
        qf@ & 1 == 1,
        pf@ & 0xffff_ffff_ffff_fde0 == 0,
        qf@ & 0xffff_ffff_ffff_fde0 == 0,
        f@ != 0 && f@ % 4096 == 0 && fits_entry(Some(f)),
        g@ != 0 && g@ % 4096 == 0 && fits_entry(Some(g)),
    ensures
        s2.translation(p@) == Some(f@),
        s2.translation(q@) == Some(g@),
        s2.translation(p@) != s2.translation(q@),
{
    lemma_same_path_refl(PageLevel::Level4, p@);
    lemma_same_path_refl(PageLevel::Level4, q@);
    if same_path(PageLevel::Level4, p@, q@) {
        lemma_same_path_indices(p@, q@);
        lemma_indices_recombine(p@);
        lemma_indices_recombine(q@);
    }
    assert(!same_path(PageLevel::Level4, p@, q@));
    assert(!same_path(PageLevel::Level4, q@, p@)) by {
        if same_path(PageLevel::Level4, q@, p@) {
            lemma_same_path_indices(q@, p@);
            lemma_indices_recombine(p@);
            lemma_indices_recombine(q@);
        }
    }
    lemma_new_word(Some(f), pf@);
    lemma_new_word(Some(g), qf@);
    assert(s2.word_at(p@) == s1.word_at(p@));
    assert(s1.word_at(p@) == new_word(Some(f), pf@));
    assert(s2.word_at(q@) == new_word(Some(g), qf@));
}

/// Releasing an address space that was empty until one page was mapped in
/// it to an unshared, present frame makes that frame and every table frame
/// that the mapping allocated (the four tables of the path) available
/// again, and leaves every other frame as it was before the mapping.
pub proof fn lemma_release_after_map(
    s0: AddressSpace,
    s1: AddressSpace,
    page: Page,
    frame: Frame,
    flags: PageEntryFlags,
    a0: PhysicalFrameAllocator,
    a1: PhysicalFrameAllocator,
    a2: PhysicalFrameAllocator,
)
    requires
        s0.unbacked(),
        AddressSpace::remapped(s0, s1, page@, new_word(Some(frame), flags@)),
        flags@ & 1 == 1,
        flags@ & 0x200 != 0x200,
        flags@ & 0xffff_ffff_ffff_fde0 == 0,
        frame@ != 0 && frame@ % 4096 == 0 && fits_entry(Some(frame)),
        a1@.len() == a0@.len(),
        a1.free_count() + s0.missing(page@) == a0.free_count(),
        forall|j: int| 0 <= j < a0.frame_count() && #[trigger] a0.used(j) ==> a1.used(j),
        forall|j: int| #[trigger] s1.holds_table(j) == (s0.holds_table(j) || fresh_frame(a0, a1, j)),
        a2@.len() == a1@.len(),
        forall|j: int|
            0 <= j < a1.frame_count() ==> #[trigger] a2.used(j) == (a1.used(j) && !s1.holds_table(j)
                && !s1.owns_leaf(j)),
    ensures
        a1.free_count() + 4 == a0.free_count(),
        forall|j: int|
            0 <= j < a0.frame_count() ==> #[trigger] a2.used(j) == (a0.used(j) && j != frame.index()),
{
    lemma_same_path_refl(PageLevel::Level4, page@);
    lemma_new_word(Some(frame), flags@);
    lemma_empty_word();
    let w = new_word(Some(frame), flags@);
    assert(s1.word_at(page@) == w);
    assert forall|j: int| s1.owns_leaf(j) == (j == frame.index()) by {
        if s1.owns_leaf(j) {
            let a = choose|a: u64| #[trigger] word_owns(s1.word_at(a)) && word_index(s1.word_at(a)) == j;
            assert(s0.word_at(a) == 0);
        }
        if j == frame.index() {
            assert(word_owns(s1.word_at(page@)) && word_index(s1.word_at(page@)) == j);
        }
    }
    assert forall|j: int| 0 <= j < a0.frame_count() implies #[trigger] a2.used(j) == (a0.used(j) && j
        != frame.index()) by {
        assert(!s0.holds_table(j));
        assert(s1.owns_leaf(j) == (j == frame.index()));
        if a0.used(j) {
            assert(a1.used(j));
        }
    }
}

} // verus!
