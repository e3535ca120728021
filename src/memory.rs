//! The translator: a FIFO translation cache consulted first, then the page
//! table, then a page fault that loads the page from the backing store.

use std::collections::VecDeque;
use vstd::prelude::*;

use crate::page_table::{lemma_allocate_wf, valid_frame, Entry, PageTable, PageTableModel};
use crate::{BACKING_STORE_SIZE, NUM_FRAMES, NUM_PAGES, PAGE_SIZE, TLB_ENTRIES};

verus! {

/// The frame of the first entry for `pg`, scanning from the oldest entry.
pub open spec fn tlb_lookup(s: Seq<Entry>, pg: u32) -> Option<u32>
    decreases s.len(),
{
    if s.len() == 0 {
        None
    } else if s[0].pg_num == pg {
        Some(s[0].frame_num)
    } else {
        tlb_lookup(s.drop_first(), pg)
    }
}

/// The cache after `e` is appended, its oldest entry dropped first when full.
pub open spec fn tlb_insert(s: Seq<Entry>, e: Entry) -> Seq<Entry> {
    if s.len() == TLB_ENTRIES {
        s.drop_first().push(e)
    } else {
        s.push(e)
    }
}

/// A raw byte read as a two's complement signed byte.
pub open spec fn as_signed(b: u8) -> i8 {
    if b < 128 {
        b as i8
    } else {
        (b - 256) as i8
    }
}

/// `data` with the frame at `frame` overwritten by page `pg` of `backing`.
pub open spec fn loaded(data: Seq<u8>, frame: int, backing: Seq<u8>, pg: int) -> Seq<u8> {
    Seq::new(
        data.len(),
        |j: int|
            if frame <= j < frame + PAGE_SIZE {
                backing[pg * PAGE_SIZE + (j - frame)]
            } else {
                data[j]
            },
    )
}

/// The page number of a 16-bit virtual address.
pub open spec fn page_of(addr: u32) -> u32 {
    (addr / PAGE_SIZE as u32) as u32
}

/// The offset within its page of a 16-bit virtual address.
pub open spec fn offset_of(addr: u32) -> u32 {
    (addr % PAGE_SIZE as u32) as u32
}

/// The outcome of one translation.
#[derive(Clone, Copy, Debug, PartialEq, Eq, Structural)]
pub struct QueryResult {
    pub physical_addr: usize,
    pub page_fault: bool,
    pub tlb_hit: bool,
    pub value: i8,
}

/// What a translator is, mathematically.
pub struct MemoryModel {
    /// Physical memory, frame after frame.
    pub data: Seq<u8>,
    pub page_table: PageTableModel,
    /// Translation cache entries, oldest first.
    pub tlb: Seq<Entry>,
}

impl MemoryModel {
    /// The translator invariant: a well-formed page table, memory sized to
    /// its frames, and a bounded cache whose entries all name valid frames.
    pub open spec fn wf(self) -> bool {
        &&& self.page_table.wf()
        &&& self.data.len() == self.page_table.frame_count * PAGE_SIZE
        &&& self.tlb.len() <= TLB_ENTRIES
        &&& forall|i: int|
            0 <= i < self.tlb.len() ==> valid_frame(
                #[trigger] self.tlb[i].frame_num as int,
                self.page_table.frame_count,
            )
    }

    /// A translator that has served no query, over `frame_count` frames.
    pub open spec fn cold(frame_count: nat) -> MemoryModel {
        MemoryModel {
            data: Seq::new((frame_count * PAGE_SIZE) as nat, |i: int| 0u8),
            page_table: PageTableModel::empty(frame_count),
            tlb: Seq::empty(),
        }
    }

    /// The translator after the query of `addr`, and the query's result.
    pub open spec fn query(self, addr: u32, backing: Seq<u8>) -> (MemoryModel, QueryResult) {
        let pg = page_of(addr);
        let off = offset_of(addr);
        match tlb_lookup(self.tlb, pg) {
            Some(f) => (
                self,
                QueryResult {
                    physical_addr: (f + off) as usize,
                    page_fault: false,
                    tlb_hit: true,
                    value: as_signed(self.data[f + off]),
                },
            ),
            None => match self.page_table.entries[pg as int] {
                Some(f) => (
                    MemoryModel {
                        data: self.data,
                        page_table: self.page_table,
                        tlb: tlb_insert(self.tlb, Entry { pg_num: pg, frame_num: f }),
                    },
                    QueryResult {
                        physical_addr: (f + off) as usize,
                        page_fault: false,
                        tlb_hit: false,
                        value: as_signed(self.data[f + off]),
                    },
                ),
                None => {
                    let f = self.page_table.next_frame();
                    let data = loaded(self.data, f as int, backing, pg as int);
                    (
                        MemoryModel {
                            data,
                            page_table: self.page_table.allocate(pg),
                            tlb: tlb_insert(self.tlb, Entry { pg_num: pg, frame_num: f }),
                        },
                        QueryResult {
                            physical_addr: (f + off) as usize,
                            page_fault: true,
                            tlb_hit: false,
                            value: as_signed(data[f + off]),
                        },
                    )
                },
            },
        }
    }
}

/// A 16-bit address is its page's base plus its offset, both below 256.
proof fn lemma_split(addr: u32)
    requires
        addr < BACKING_STORE_SIZE,
    ensures
        page_of(addr) < NUM_PAGES,
        offset_of(addr) < PAGE_SIZE,
        addr == page_of(addr) * PAGE_SIZE + offset_of(addr),
{
    assert(addr / 256 < 256 && addr % 256 < 256 && addr == (addr / 256) * 256 + addr % 256)
        by (nonlinear_arith)
        requires
            addr < 65536,
    ;
}

/// A valid frame leaves room for a whole page before the end of memory.
proof fn lemma_frame_room(f: int, frame_count: nat)
    requires
        valid_frame(f, frame_count),
    ensures
        f + PAGE_SIZE <= frame_count * PAGE_SIZE,
{
    let k = f / PAGE_SIZE as int;
    assert(f == k * PAGE_SIZE);
    assert(k < frame_count) by (nonlinear_arith)
        requires
            f == k * 256,
            f < frame_count * 256,
    ;
    assert(k * 256 + 256 <= frame_count * 256) by (nonlinear_arith)
        requires
            k < frame_count,
    ;
}

/// A lookup that finds nothing keeps finding nothing without the oldest
/// entry, and finds a newly appended entry for the page.
proof fn lemma_lookup_push(s: Seq<Entry>, e: Entry, pg: u32)
    requires
        tlb_lookup(s, pg).is_none(),
    ensures
        tlb_lookup(s.push(e), pg) == (if e.pg_num == pg {
            Some(e.frame_num)
        } else {
            None
        }),
    decreases s.len(),
{
    if s.len() > 0 {
        assert(s[0].pg_num != pg);
        assert(s.push(e)[0] == s[0]);
        assert(s.push(e).drop_first() =~= s.drop_first().push(e));
        lemma_lookup_push(s.drop_first(), e, pg);
    } else {
        assert(s.push(e).drop_first() =~= Seq::<Entry>::empty());
        assert(s.push(e)[0] == e);
        assert(tlb_lookup(s.push(e).drop_first(), pg).is_none());
    }
}

/// After an insertion into a cache that held no entry for `pg`, a lookup of
/// `pg` finds the inserted entry if it is for `pg`, and nothing otherwise.
proof fn lemma_lookup_insert(s: Seq<Entry>, e: Entry, pg: u32)
    requires
        tlb_lookup(s, pg).is_none(),
    ensures
        tlb_lookup(tlb_insert(s, e), pg) == (if e.pg_num == pg {
            Some(e.frame_num)
        } else {
            None
        }),
{
    if s.len() == TLB_ENTRIES {
        lemma_lookup_push(s.drop_first(), e, pg);
    } else {
        lemma_lookup_push(s, e, pg);
    }
}

/// What a lookup finds is the frame of some entry.
proof fn lemma_lookup_member(s: Seq<Entry>, pg: u32)
    ensures
        tlb_lookup(s, pg) matches Some(f) ==> exists|i: int|
            0 <= i < s.len() && (#[trigger] s[i]).frame_num == f,
    decreases s.len(),
{
    if s.len() > 0 && s[0].pg_num != pg {
        lemma_lookup_member(s.drop_first(), pg);
        if let Some(f) = tlb_lookup(s, pg) {
            let i = choose|i: int| 0 <= i < s.len() - 1 && (#[trigger] s.drop_first()[i]).frame_num == f;
            assert(s[i + 1].frame_num == f);
        }
    } else if s.len() > 0 {
        assert(s[0].frame_num == tlb_lookup(s, pg).unwrap());
    }
}

/// Inserting an entry with a valid frame keeps the translator invariant.
proof fn lemma_insert_wf(m: MemoryModel, e: Entry)
    requires
        m.wf(),
        valid_frame(e.frame_num as int, m.page_table.frame_count),
    ensures
        tlb_insert(m.tlb, e).len() <= TLB_ENTRIES,
        forall|i: int|
            0 <= i < tlb_insert(m.tlb, e).len() ==> valid_frame(
                #[trigger] tlb_insert(m.tlb, e)[i].frame_num as int,
                m.page_table.frame_count,
            ),
{
    let t = tlb_insert(m.tlb, e);
    assert forall|i: int| 0 <= i < t.len() implies valid_frame(
        #[trigger] t[i].frame_num as int,
        m.page_table.frame_count,
    ) by {
        if i < t.len() - 1 {
            if m.tlb.len() == TLB_ENTRIES {
                assert(t[i] == m.tlb[i + 1]);
            } else {
                assert(t[i] == m.tlb[i]);
            }
        }
    }
}

/// A query keeps the translator invariant.
pub proof fn lemma_query_wf(m: MemoryModel, addr: u32, backing: Seq<u8>)
    requires
        m.wf(),
        addr < BACKING_STORE_SIZE,
        backing.len() >= BACKING_STORE_SIZE,
    ensures
        m.query(addr, backing).0.wf(),
{
    let pg = page_of(addr);
    lemma_split(addr);
    if tlb_lookup(m.tlb, pg).is_none() {
        match m.page_table.entries[pg as int] {
            Some(f) => {
                let i = choose|i: int|
                    0 <= i < m.page_table.queue.len() && m.page_table.queue[i].pg_num == pg;
                assert(m.page_table.queue[i].pg_num < NUM_PAGES);
                lemma_insert_wf(m, Entry { pg_num: pg, frame_num: f });
            },
            None => {
                lemma_allocate_wf(m.page_table, pg);
                lemma_insert_wf(m, Entry { pg_num: pg, frame_num: m.page_table.next_frame() });
            },
        }
    }
}

/// Every page queried on a translator that has served nothing is a page
/// fault, and the byte at the physical address it returns is the backing
/// store's byte of that page and offset.
pub proof fn lemma_cold_query_faults(frame_count: nat, pg: u32, off: u32, backing: Seq<u8>)
    requires
        1 <= frame_count <= NUM_PAGES,
        pg < NUM_PAGES,
        off < PAGE_SIZE,
        backing.len() >= BACKING_STORE_SIZE,
    ensures
        ({
            let (m, r) = MemoryModel::cold(frame_count).query(
                (pg * PAGE_SIZE + off) as u32,
                backing,
            );
            &&& r.page_fault
            &&& !r.tlb_hit
            &&& m.data[r.physical_addr as int] == backing[pg * PAGE_SIZE + off]
            &&& r.value == as_signed(backing[pg * PAGE_SIZE + off])
        }),
{
    let addr = (pg * PAGE_SIZE + off) as u32;
    assert(page_of(addr) == pg && offset_of(addr) == off);
    let c = MemoryModel::cold(frame_count);
    assert(c.page_table.entries[pg as int].is_none());
    assert(c.page_table.next_frame() == 0);
}

/// A query repeated at once is a cache hit with the same physical address
/// and value, and changes nothing.
pub proof fn lemma_requery_hits(m: MemoryModel, addr: u32, backing: Seq<u8>)
    requires
        m.wf(),
        addr < BACKING_STORE_SIZE,
        backing.len() >= BACKING_STORE_SIZE,
    ensures
        ({
            let (m1, r1) = m.query(addr, backing);
            let (m2, r2) = m1.query(addr, backing);
            &&& r2.tlb_hit
            &&& !r2.page_fault
            &&& r2.physical_addr == r1.physical_addr
            &&& r2.value == r1.value
            &&& m2 == m1
        }),
{
    let pg = page_of(addr);
    if tlb_lookup(m.tlb, pg).is_none() {
        match m.page_table.entries[pg as int] {
            Some(f) => {
                lemma_lookup_insert(m.tlb, Entry { pg_num: pg, frame_num: f }, pg);
            },
            None => {
                lemma_lookup_insert(
                    m.tlb,
                    Entry { pg_num: pg, frame_num: m.page_table.next_frame() },
                    pg,
                );
            },
        }
    }
}

/// The signed reading of a raw byte.
fn signed_byte(b: u8) -> (r: i8)
    ensures
        r == as_signed(b),
{
    if b < 128 {
        b as i8
    } else {
        (b as i16 - 256) as i8
    }
}

/// Physical memory, the page table and the translation cache of one process.
pub struct Memory {
    data: Vec<u8>,
    page_table: PageTable,
    tlb: VecDeque<Entry>,
}

impl View for Memory {
    type V = MemoryModel;

    closed spec fn view(&self) -> MemoryModel {
        MemoryModel { data: self.data@, page_table: self.page_table@, tlb: self.tlb@ }
    }
}

impl Memory {
    /// A translator over the default number of frames that has served nothing.
    pub fn new() -> (m: Memory)
        ensures
            m@ == MemoryModel::cold(NUM_FRAMES as nat),
            m@.wf(),
    {
        Memory::with_frames(NUM_FRAMES)
    }

    /// A translator over `frame_count` frames that has served nothing.
    pub fn with_frames(frame_count: usize) -> (m: Memory)
        requires
            1 <= frame_count <= NUM_PAGES,
        ensures
            m@ == MemoryModel::cold(frame_count as nat),
            m@.wf(),
    {
        let size = frame_count * PAGE_SIZE;
        let mut data: Vec<u8> = Vec::with_capacity(size);
        let mut i: usize = 0;
        while i < size
            invariant
                i <= size,
                data@ == Seq::new(i as nat, |j: int| 0u8),
            decreases size - i,
        {
            data.push(0);
            i = i + 1;
            assert(data@ =~= Seq::new(i as nat, |j: int| 0u8));
        }
        let m = Memory {
            data,
            page_table: PageTable::with_frames(frame_count),
            tlb: VecDeque::with_capacity(TLB_ENTRIES),
        };
        assert(m@.data =~= MemoryModel::cold(frame_count as nat).data);
        m
    }

    /// The page table.
    pub fn page_table(&self) -> (t: &PageTable)
        ensures
            t@ == self@.page_table,
    {
        &self.page_table
    }

    /// The frame that the cache maps page `pg_num` to, scanning from its
    /// oldest entry; nothing is reordered.
    pub fn consult_tlb(&self, pg_num: u32) -> (r: Option<u32>)
        ensures
            r == tlb_lookup(self@.tlb, pg_num),
    {
        let n = self.tlb.len();
        let mut i: usize = 0;
        assert(self@.tlb.subrange(0, n as int) =~= self@.tlb);
        while i < n
            invariant
                i <= n,
                n == self@.tlb.len(),
                tlb_lookup(self@.tlb, pg_num) == tlb_lookup(
                    self@.tlb.subrange(i as int, n as int),
                    pg_num,
                ),
            decreases n - i,
        {
            let e = self.tlb[i];
            if e.pg_num == pg_num {
                return Some(e.frame_num);
            }
            assert(self@.tlb.subrange(i as int, n as int).drop_first() =~= self@.tlb.subrange(
                i + 1,
                n as int,
            ));
            i = i + 1;
        }
        None
    }

    /// Appends a mapping to the cache, dropping its oldest entry first when
    /// it already holds its capacity.
    pub fn update_tlb(&mut self, pg_num: u32, frame_num: u32)
        requires
            old(self)@.wf(),
            valid_frame(frame_num as int, old(self)@.page_table.frame_count),
        ensures
            final(self)@.tlb == tlb_insert(
                old(self)@.tlb,
                Entry { pg_num, frame_num },
            ),
            old(self)@.tlb.len() == TLB_ENTRIES ==> final(self)@.tlb == old(self)@.tlb.drop_first().push(
                Entry { pg_num, frame_num },
            ),
            final(self)@.tlb.len() <= TLB_ENTRIES,
            final(self)@.data == old(self)@.data,
            final(self)@.page_table == old(self)@.page_table,
            final(self)@.wf(),
    {
        proof {
            lemma_insert_wf(self@, Entry { pg_num, frame_num });
        }
        if self.tlb.len() == TLB_ENTRIES {
            self.tlb.pop_front();
        }
        self.tlb.push_back(Entry { pg_num, frame_num });
        assert(self@.tlb =~= tlb_insert(old(self)@.tlb, Entry { pg_num, frame_num }));
    }

    /// Copies page `pg_num` of the backing store into the frame at `frame_num`.
    fn load_page(&mut self, pg_num: u32, frame_num: usize, backing: &[u8])
        requires
            pg_num < NUM_PAGES,
            frame_num + PAGE_SIZE <= old(self)@.data.len(),
            old(self)@.data.len() <= BACKING_STORE_SIZE,
            backing@.len() >= BACKING_STORE_SIZE,
        ensures
            final(self)@.data == loaded(
                old(self)@.data,
                frame_num as int,
                backing@,
                pg_num as int,
            ),
            final(self)@.page_table == old(self)@.page_table,
            final(self)@.tlb == old(self)@.tlb,
    {
        let start = pg_num as usize * PAGE_SIZE;
        let mut i: usize = 0;
        while i < PAGE_SIZE
            invariant
                i <= PAGE_SIZE,
                start == pg_num * PAGE_SIZE,
                pg_num < NUM_PAGES,
                frame_num + PAGE_SIZE <= old(self)@.data.len(),
                old(self)@.data.len() <= BACKING_STORE_SIZE,
                backing@.len() >= BACKING_STORE_SIZE,
                self@.page_table == old(self)@.page_table,
                self@.tlb == old(self)@.tlb,
                self@.data == Seq::new(
                    old(self)@.data.len(),
                    |j: int|
                        if frame_num <= j < frame_num + i {
                            backing@[start + (j - frame_num)]
                        } else {
                            old(self)@.data[j]
                        },
                ),
            decreases PAGE_SIZE - i,
        {
            self.data[frame_num + i] = backing[start + i];
            i = i + 1;
            assert(self@.data =~= Seq::new(
                old(self)@.data.len(),
                |j: int|
                    if frame_num <= j < frame_num + i {
                        backing@[start + (j - frame_num)]
                    } else {
                        old(self)@.data[j]
                    },
            ));
        }
        assert(self@.data =~= loaded(old(self)@.data, frame_num as int, backing@, pg_num as int));
    }

    /// Translates the 16-bit virtual address `virtual_addr`: through the
    /// cache, else the page table, else a page fault that loads the page from
    /// `backing`, the backing store's bytes.
    pub fn query(&mut self, virtual_addr: u32, backing: &[u8]) -> (r: QueryResult)
        requires
            old(self)@.wf(),
            virtual_addr < BACKING_STORE_SIZE,
            backing@.len() >= BACKING_STORE_SIZE,
        ensures
            (final(self)@, r) == old(self)@.query(virtual_addr, backing@),
            final(self)@.wf(),
    {
        proof {
            lemma_query_wf(self@, virtual_addr, backing@);
        }
        let pg_num = virtual_addr >> 8;
        let offset = (virtual_addr & 0xFF) as usize;
        assert(pg_num == page_of(virtual_addr)) by (bit_vector)
            requires
                pg_num == virtual_addr >> 8,
        ;
        assert(offset == offset_of(virtual_addr)) by (bit_vector)
            requires
                offset == virtual_addr & 0xFF,
        ;
        if let Some(frame_num) = self.consult_tlb(pg_num) {
            proof {
                lemma_lookup_member(self@.tlb, pg_num);
                lemma_frame_room(frame_num as int, self@.page_table.frame_count);
            }
            let physical_addr = frame_num as usize + offset;
            QueryResult {
                physical_addr,
                page_fault: false,
                tlb_hit: true,
                value: signed_byte(self.data[physical_addr]),
            }
        } else if let Some(frame_num) = self.page_table.lookup(pg_num) {
            proof {
                lemma_frame_room(frame_num as int, self@.page_table.frame_count);
            }
            self.update_tlb(pg_num, frame_num);
            let physical_addr = frame_num as usize + offset;
            QueryResult {
                physical_addr,
                page_fault: false,
                tlb_hit: false,
                value: signed_byte(self.data[physical_addr]),
            }
        } else {
            let frame_num = self.page_table.get_frame_num(pg_num);
            proof {
                lemma_frame_room(frame_num as int, old(self)@.page_table.frame_count);
            }
            self.update_tlb(pg_num, frame_num as u32);
            self.load_page(pg_num, frame_num, backing);
            let physical_addr = frame_num + offset;
            QueryResult {
                physical_addr,
                page_fault: true,
                tlb_hit: false,
                value: signed_byte(self.data[physical_addr]),
            }
        }
    }
}

} // verus!
