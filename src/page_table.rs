//! The page table: one optional frame per page number, and a FIFO queue of
//! occupied frames that picks the victim when every frame is taken.

use std::collections::VecDeque;
use vstd::prelude::*;

use crate::{NUM_FRAMES, NUM_PAGES, PAGE_SIZE};

verus! {

/// A mapping of one page to the first byte of one frame.
#[derive(Clone, Copy, Debug, PartialEq, Eq, Structural)]
pub struct Entry {
    pub pg_num: u32,
    pub frame_num: u32,
}

/// A frame base is a multiple of the page size below the end of memory.
pub open spec fn valid_frame(frame: int, frame_count: nat) -> bool {
    &&& 0 <= frame < frame_count * PAGE_SIZE
    &&& frame % PAGE_SIZE as int == 0
}

/// What a page table is, mathematically.
pub struct PageTableModel {
    /// `entries[p]` is the frame that page `p` occupies, if any.
    pub entries: Seq<Option<u32>>,
    /// Occupied frames, oldest assignment first.
    pub queue: Seq<Entry>,
    /// Frames of physical memory.
    pub frame_count: nat,
}

impl PageTableModel {
    /// The table invariant: the queue lists exactly the mapped pages, each
    /// once, on distinct frames, and never more than there are frames.
    pub open spec fn wf(self) -> bool {
        &&& self.entries.len() == NUM_PAGES
        &&& 1 <= self.frame_count <= NUM_PAGES
        &&& self.queue.len() <= self.frame_count
        &&& forall|i: int| 0 <= i < self.queue.len() ==> {
            &&& #[trigger] self.queue[i].pg_num < NUM_PAGES
            &&& self.entries[self.queue[i].pg_num as int] == Some(self.queue[i].frame_num)
            &&& valid_frame(self.queue[i].frame_num as int, self.frame_count)
            &&& self.queue[i].frame_num < self.queue.len() * PAGE_SIZE
        }
        &&& forall|i: int, j: int|
            0 <= i < j < self.queue.len() ==> {
                &&& #[trigger] self.queue[i].pg_num != #[trigger] self.queue[j].pg_num
                &&& self.queue[i].frame_num != self.queue[j].frame_num
            }
        &&& forall|p: int| 0 <= p < NUM_PAGES && (#[trigger] self.entries[p]).is_some() ==>
            exists|i: int| 0 <= i < self.queue.len() && self.queue[i].pg_num == p
    }

    /// The table with every page unmapped.
    pub open spec fn empty(frame_count: nat) -> PageTableModel {
        PageTableModel {
            entries: Seq::new(NUM_PAGES as nat, |p: int| None),
            queue: Seq::empty(),
            frame_count,
        }
    }

    /// Whether every frame is occupied.
    pub open spec fn is_full(self) -> bool {
        self.queue.len() == self.frame_count
    }

    /// The frame that the next allocation hands out: the oldest occupied one
    /// when memory is full, else the first frame never used.
    pub open spec fn next_frame(self) -> u32 {
        if self.is_full() {
            self.queue[0].frame_num
        } else {
            (self.queue.len() * PAGE_SIZE) as u32
        }
    }

    /// The table after `pg` is given `next_frame()`, its oldest page evicted
    /// first when memory is full.
    pub open spec fn allocate(self, pg: u32) -> PageTableModel {
        let frame = self.next_frame();
        let new_entry = Entry { pg_num: pg, frame_num: frame };
        if self.is_full() {
            PageTableModel {
                entries: self.entries.update(self.queue[0].pg_num as int, None).update(
                    pg as int,
                    Some(frame),
                ),
                queue: self.queue.drop_first().push(new_entry),
                frame_count: self.frame_count,
            }
        } else {
            PageTableModel {
                entries: self.entries.update(pg as int, Some(frame)),
                queue: self.queue.push(new_entry),
                frame_count: self.frame_count,
            }
        }
    }
}

/// Allocating a frame to an unmapped page keeps the table invariant; the
/// frame is valid, and it is the frame of the evicted page when memory was
/// full.
pub proof fn lemma_allocate_wf(t: PageTableModel, pg: u32)
    requires
        t.wf(),
        pg < NUM_PAGES,
        t.entries[pg as int].is_none(),
    ensures
        t.allocate(pg).wf(),
        valid_frame(t.next_frame() as int, t.frame_count),
        t.allocate(pg).entries[pg as int] == Some(t.next_frame()),
        t.allocate(pg).queue.len() <= t.frame_count,
{
    let n = t.allocate(pg);
    let frame = t.next_frame();
    assert(forall|i: int| 0 <= i < t.queue.len() ==> t.queue[i].pg_num != pg) by {
        assert forall|i: int| 0 <= i < t.queue.len() implies t.queue[i].pg_num != pg by {
            if t.queue[i].pg_num == pg {
                assert(t.entries[t.queue[i].pg_num as int] == Some(t.queue[i].frame_num));
            }
        }
    }
    if t.is_full() {
        assert(t.queue.len() > 0);
        let victim = t.queue[0];
        assert(t.queue[0].pg_num < NUM_PAGES);
        assert(forall|i: int| 0 <= i < n.queue.len() - 1 ==> n.queue[i] == t.queue[i + 1]);
        assert forall|i: int| 0 <= i < n.queue.len() implies {
            &&& #[trigger] n.queue[i].pg_num < NUM_PAGES
            &&& n.entries[n.queue[i].pg_num as int] == Some(n.queue[i].frame_num)
            &&& valid_frame(n.queue[i].frame_num as int, n.frame_count)
            &&& n.queue[i].frame_num < n.queue.len() * PAGE_SIZE
        } by {
            if i < n.queue.len() - 1 {
                assert(t.queue[0].pg_num != t.queue[i + 1].pg_num);
            }
        }
        assert forall|i: int, j: int| 0 <= i < j < n.queue.len() implies {
            &&& #[trigger] n.queue[i].pg_num != #[trigger] n.queue[j].pg_num
            &&& n.queue[i].frame_num != n.queue[j].frame_num
        } by {
            if j == n.queue.len() - 1 {
                assert(t.queue[0].frame_num != t.queue[i + 1].frame_num);
            } else {
                assert(t.queue[i + 1].pg_num != t.queue[j + 1].pg_num);
            }
        }
        assert forall|p: int| 0 <= p < NUM_PAGES && (#[trigger] n.entries[p]).is_some() implies
            exists|i: int| 0 <= i < n.queue.len() && n.queue[i].pg_num == p by {
            if p == pg {
                assert(n.queue[n.queue.len() - 1].pg_num == p);
            } else {
                assert(p != victim.pg_num);
                assert(t.entries[p].is_some());
                let i = choose|i: int| 0 <= i < t.queue.len() && t.queue[i].pg_num == p;
                assert(i != 0);
                assert(n.queue[i - 1].pg_num == p);
            }
        }
    } else {
        assert forall|i: int| 0 <= i < n.queue.len() implies {
            &&& #[trigger] n.queue[i].pg_num < NUM_PAGES
            &&& n.entries[n.queue[i].pg_num as int] == Some(n.queue[i].frame_num)
            &&& valid_frame(n.queue[i].frame_num as int, n.frame_count)
            &&& n.queue[i].frame_num < n.queue.len() * PAGE_SIZE
        } by {
            if i < t.queue.len() {
                assert(t.queue[i] == n.queue[i]);
            }
            assert((t.queue.len() * PAGE_SIZE) % PAGE_SIZE as int == 0) by (nonlinear_arith);
            assert(t.queue.len() * PAGE_SIZE < t.frame_count * PAGE_SIZE) by (nonlinear_arith)
                requires t.queue.len() < t.frame_count;
        }
        assert forall|p: int| 0 <= p < NUM_PAGES && (#[trigger] n.entries[p]).is_some() implies
            exists|i: int| 0 <= i < n.queue.len() && n.queue[i].pg_num == p by {
            if p == pg {
                assert(n.queue[n.queue.len() - 1].pg_num == p);
            } else {
                let i = choose|i: int| 0 <= i < t.queue.len() && t.queue[i].pg_num == p;
                assert(n.queue[i].pg_num == p);
            }
        }
    }
}

/// The page table of the translator.
pub struct PageTable {
    frame_nums: Vec<Option<u32>>,
    swap_queue: VecDeque<Entry>,
    num_frames: usize,
}

impl View for PageTable {
    type V = PageTableModel;

    closed spec fn view(&self) -> PageTableModel {
        PageTableModel {
            entries: self.frame_nums@,
            queue: self.swap_queue@,
            frame_count: self.num_frames as nat,
        }
    }
}

impl PageTable {
    /// A table with every page unmapped, over the default number of frames.
    pub fn new() -> (t: PageTable)
        ensures
            t@ == PageTableModel::empty(NUM_FRAMES as nat),
            t@.wf(),
    {
        PageTable::with_frames(NUM_FRAMES)
    }

    /// A table with every page unmapped, over `frame_count` frames.
    pub fn with_frames(frame_count: usize) -> (t: PageTable)
        requires
            1 <= frame_count <= NUM_PAGES,
        ensures
            t@ == PageTableModel::empty(frame_count as nat),
            t@.wf(),
    {
        let mut frame_nums: Vec<Option<u32>> = Vec::with_capacity(NUM_PAGES);
        let mut p: usize = 0;
        while p < NUM_PAGES
            invariant
                p <= NUM_PAGES,
                frame_nums@ == Seq::new(p as nat, |i: int| None::<u32>),
            decreases NUM_PAGES - p,
        {
            frame_nums.push(None);
            p = p + 1;
            assert(frame_nums@ =~= Seq::new(p as nat, |i: int| None::<u32>));
        }
        let t = PageTable {
            frame_nums,
            swap_queue: VecDeque::with_capacity(frame_count),
            num_frames: frame_count,
        };
        assert(t@ == PageTableModel::empty(frame_count as nat));
        t
    }

    /// The frame that page `pg_num` occupies, if any.
    pub fn lookup(&self, pg_num: u32) -> (r: Option<u32>)
        requires
            self@.wf(),
            pg_num < NUM_PAGES,
        ensures
            r == self@.entries[pg_num as int],
            r matches Some(f) ==> valid_frame(f as int, self@.frame_count),
    {
        proof {
            if self@.entries[pg_num as int].is_some() {
                let i = choose|i: int|
                    0 <= i < self@.queue.len() && self@.queue[i].pg_num == pg_num;
                assert(self@.queue[i].pg_num < NUM_PAGES);
            }
        }
        self.frame_nums[pg_num as usize]
    }

    /// Gives a frame to the unmapped page `pg_num`: the next unused frame
    /// while one is left, else the frame of the oldest page, which is unmapped.
    pub fn get_frame_num(&mut self, pg_num: u32) -> (r: usize)
        requires
            old(self)@.wf(),
            pg_num < NUM_PAGES,
            old(self)@.entries[pg_num as int].is_none(),
        ensures
            final(self)@ == old(self)@.allocate(pg_num),
            final(self)@.wf(),
            r == old(self)@.next_frame(),
            valid_frame(r as int, old(self)@.frame_count),
            old(self)@.is_full() ==> r == old(self)@.queue[0].frame_num,
            old(self)@.is_full() ==> final(self)@.queue == old(self)@.queue.drop_first().push(
                Entry { pg_num, frame_num: r as u32 },
            ),
            old(self)@.is_full() ==> final(self)@.entries[old(self)@.queue[0].pg_num as int]
                is None,
            final(self)@.queue.len() <= final(self)@.frame_count,
            !old(self)@.is_full() ==> r == old(self)@.queue.len() * PAGE_SIZE,
    {
        proof {
            lemma_allocate_wf(self@, pg_num);
        }
        let frame_num: usize = if self.swap_queue.len() == self.num_frames {
            let swapped_page = self.swap_queue.pop_front().unwrap();
            assert(swapped_page.pg_num < NUM_PAGES);
            self.frame_nums[swapped_page.pg_num as usize] = None;
            swapped_page.frame_num as usize
        } else {
            self.swap_queue.len() * PAGE_SIZE
        };
        self.swap_queue.push_back(Entry { pg_num, frame_num: frame_num as u32 });
        self.frame_nums[pg_num as usize] = Some(frame_num as u32);
        proof {
            assert(self@.queue =~= old(self)@.allocate(pg_num).queue);
            assert(self@.entries =~= old(self)@.allocate(pg_num).entries);
        }
        frame_num
    }
}

} // verus!
