//! The extents of the fast pool: metadata and data share them, allocation is
//! on demand, and watermarks arbitrate.
//!
//! - Below the sink watermark, cold data should move down faster.
//! - Below the protection watermark, data gets no extent and has to go straight
//!   to the tier below; metadata still gets extents, down to the last one.

use vstd::prelude::*;

use crate::types;
use crate::types::{Error, ErrorView, ExtentId, MediaClass};

verus! {

/// What an extent is for.
#[derive(Debug, Clone, Copy, PartialEq, Eq, Structural)]
pub enum Purpose {
    /// Cannot move down, so it is served even below the protection watermark.
    Metadata,
    /// Refused below the protection watermark.
    Data,
}

/// The watermarks, in thousandths of the pool that are free.
#[derive(Debug, Clone, Copy)]
pub struct PoolWatermarks {
    /// With less than this free, moving cold data down is advised.
    pub sink_free_permille: u32,
    /// With less than this free, only metadata gets extents.
    pub protect_free_permille: u32,
}

impl Default for PoolWatermarks {
    fn default() -> (r: Self)
        ensures
            r == (PoolWatermarks { sink_free_permille: 300, protect_free_permille: 100 }),
    {
        PoolWatermarks { sink_free_permille: 300, protect_free_permille: 100 }
    }
}

/// How full the pool is.
#[derive(Debug, Clone, Copy, PartialEq, Eq, Structural)]
pub enum Pressure {
    Normal,
    /// Below the sink watermark.
    SinkAdvised,
    /// Below the protection watermark.
    Protected,
}

/// The state of the pool.
pub struct AllocatorView {
    pub total: u64,
    pub free: u64,
    pub watermarks: PoolWatermarks,
    /// The number of the last extent handed out.
    pub next_id: u64,
    pub meta_used: u64,
    pub data_used: u64,
}

impl AllocatorView {
    /// The thousandths of the pool that are free.
    pub open spec fn free_permille(self) -> int {
        if self.total == 0 {
            0
        } else {
            self.free * 1000 / self.total as int
        }
    }

    pub open spec fn pressure(self) -> Pressure {
        if self.free_permille() < self.watermarks.protect_free_permille {
            Pressure::Protected
        } else if self.free_permille() < self.watermarks.sink_free_permille {
            Pressure::SinkAdvised
        } else {
            Pressure::Normal
        }
    }

    /// Whether an extent is refused.
    pub open spec fn refuses(self, purpose: Purpose) -> bool {
        self.free == 0 || (purpose is Data && self.pressure() is Protected)
    }

    /// The state with one extent handed out.
    pub open spec fn taken(self, purpose: Purpose) -> AllocatorView {
        AllocatorView {
            free: (self.free - 1) as u64,
            next_id: (self.next_id + 1) as u64,
            meta_used: if purpose is Metadata { (self.meta_used + 1) as u64 } else { self.meta_used },
            data_used: if purpose is Data { (self.data_used + 1) as u64 } else { self.data_used },
            ..self
        }
    }

    pub open spec fn allocate(self, purpose: Purpose) -> (
        AllocatorView,
        Result<(ExtentId, Pressure), ErrorView>,
    ) {
        if self.refuses(purpose) {
            (self, Err(ErrorView::NoSpace { media: MediaClass::TlcNvme }))
        } else {
            let after = self.taken(purpose);
            (after, Ok((ExtentId(after.next_id), after.pressure())))
        }
    }

    /// Whether the numbers that come up in an allocation fit in 64 bits.
    pub open spec fn can_allocate(self, purpose: Purpose) -> bool {
        self.free > 0 ==> {
            &&& purpose is Data ==> self.free * 1000 <= u64::MAX
            &&& !self.refuses(purpose) ==> self.next_id < u64::MAX && (self.free - 1) * 1000 <= u64::MAX
        }
    }

    pub open spec fn release(self, purpose: Purpose) -> AllocatorView {
        AllocatorView {
            free: if self.free + 1 <= self.total { (self.free + 1) as u64 } else { self.total },
            meta_used: if purpose is Metadata && self.meta_used > 0 {
                (self.meta_used - 1) as u64
            } else {
                self.meta_used
            },
            data_used: if purpose is Data && self.data_used > 0 {
                (self.data_used - 1) as u64
            } else {
                self.data_used
            },
            ..self
        }
    }

    /// No more is free than there is, and no more in use than was handed out.
    pub open spec fn sound(self) -> bool {
        &&& self.free <= self.total
        &&& self.meta_used <= self.next_id
        &&& self.data_used <= self.next_id
    }

    /// Every extent is free or accounted for.
    pub open spec fn balanced(self) -> bool {
        self.free + self.meta_used + self.data_used == self.total
    }
}

/// Hands out the extents of a pool shared by metadata and data.
#[derive(Debug)]
pub struct ExtentAllocator {
    total: u64,
    free: u64,
    watermarks: PoolWatermarks,
    next_id: u64,
    meta_used: u64,
    data_used: u64,
}

impl View for ExtentAllocator {
    type V = AllocatorView;

    closed spec fn view(&self) -> AllocatorView {
        AllocatorView {
            total: self.total,
            free: self.free,
            watermarks: self.watermarks,
            next_id: self.next_id,
            meta_used: self.meta_used,
            data_used: self.data_used,
        }
    }
}

impl ExtentAllocator {
    pub open spec fn wf(&self) -> bool {
        self@.sound()
    }

    pub fn new(total_extents: u64, watermarks: PoolWatermarks) -> (r: Self)
        ensures
            r.wf(),
            r@ == (AllocatorView {
                total: total_extents,
                free: total_extents,
                watermarks,
                next_id: 0,
                meta_used: 0,
                data_used: 0,
            }),
    {
        ExtentAllocator {
            total: total_extents,
            free: total_extents,
            watermarks,
            next_id: 0,
            meta_used: 0,
            data_used: 0,
        }
    }

    fn free_permille(&self) -> (r: u32)
        requires
            self.wf(),
            self@.total > 0 ==> self@.free * 1000 <= u64::MAX,
        ensures
            r == self@.free_permille(),
    {
        if self.total == 0 {
            return 0;
        }
        let r: u64 = (self.free * 1000) / self.total;
        let ghost (f, t) = (self.free as int, self.total as int);
        assert(0 <= f * 1000 / t <= 1000) by (nonlinear_arith)
            requires
                0 <= f <= t,
                t > 0,
        ;
        r as u32
    }

    pub fn pressure(&self) -> (p: Pressure)
        requires
            self.wf(),
            self@.free * 1000 <= u64::MAX,
        ensures
            p == self@.pressure(),
    {
        let f: u32 = self.free_permille();
        if f < self.watermarks.protect_free_permille {
            Pressure::Protected
        } else if f < self.watermarks.sink_free_permille {
            Pressure::SinkAdvised
        } else {
            Pressure::Normal
        }
    }

    /// Hands out an extent. There is no fixed boundary between metadata and
    /// data: only the watermarks arbitrate.
    pub fn allocate(&mut self, purpose: Purpose) -> (r: Result<(ExtentId, Pressure), Error>)
        requires
            old(self).wf(),
            old(self)@.can_allocate(purpose),
        ensures
            final(self).wf(),
            (final(self)@, types::outcome(r)) == old(self)@.allocate(purpose),
    {
        if self.free == 0 {
            return Err(Error::NoSpace { media: MediaClass::TlcNvme });
        }
        if matches!(purpose, Purpose::Data) && matches!(self.pressure(), Pressure::Protected) {
            return Err(Error::NoSpace { media: MediaClass::TlcNvme });
        }
        self.free = self.free - 1;
        self.next_id = self.next_id + 1;
        match purpose {
            Purpose::Metadata => {
                self.meta_used = self.meta_used + 1;
            },
            Purpose::Data => {
                self.data_used = self.data_used + 1;
            },
        }
        Ok((ExtentId(self.next_id), self.pressure()))
    }

    /// Tests whether an extent would be refused.
    pub(crate) fn refuses(&self, purpose: Purpose) -> (b: bool)
        requires
            self.wf(),
            purpose is Data ==> self@.free * 1000 <= u64::MAX,
        ensures
            b == self@.refuses(purpose),
    {
        self.free == 0 || (matches!(purpose, Purpose::Data) && matches!(self.pressure(), Pressure::Protected))
    }

    /// Tests whether the numbers that come up in an allocation fit in 64 bits.
    pub(crate) fn allocation_fits(&self, purpose: Purpose) -> (b: bool)
        requires
            self.wf(),
        ensures
            b == self@.can_allocate(purpose),
    {
        if self.free == 0 {
            return true;
        }
        if matches!(purpose, Purpose::Data) && self.free > u64::MAX / 1000 {
            return false;
        }
        self.refuses(purpose) || (self.next_id < u64::MAX && self.free - 1 <= u64::MAX / 1000)
    }

    /// Takes an extent back (after a deletion, or once data has moved down).
    pub fn release(&mut self, purpose: Purpose)
        requires
            old(self).wf(),
            old(self)@.free < u64::MAX,
        ensures
            final(self).wf(),
            final(self)@ == old(self)@.release(purpose),
    {
        if self.free + 1 <= self.total {
            self.free = self.free + 1;
        } else {
            self.free = self.total;
        }
        match purpose {
            Purpose::Metadata => {
                self.meta_used = self.meta_used.saturating_sub(1);
            },
            Purpose::Data => {
                self.data_used = self.data_used.saturating_sub(1);
            },
        }
    }

    /// The extents that metadata takes up: exactly as many as it uses.
    pub fn metadata_used(&self) -> (n: u64)
        ensures
            n == self@.meta_used,
    {
        self.meta_used
    }

    pub fn data_used(&self) -> (n: u64)
        ensures
            n == self@.data_used,
    {
        self.data_used
    }

    /// The number of the last extent handed out.
    pub(crate) fn last_number(&self) -> (n: u64)
        ensures
            n == self@.next_id,
    {
        self.next_id
    }

    pub fn free_extents(&self) -> (n: u64)
        ensures
            n == self@.free,
    {
        self.free
    }
}

/// No extent is lost or made up: handing one out, and taking back one that was
/// handed out, keeps free and used extents adding up to the pool.
pub proof fn law_extents_are_conserved(a: AllocatorView, purpose: Purpose)
    requires
        a.balanced(),
        a.can_allocate(purpose),
    ensures
        a.allocate(purpose).0.balanced(),
        (purpose is Metadata && a.meta_used > 0) || (purpose is Data && a.data_used > 0) ==> a.release(
            purpose,
        ).balanced(),
{
}

/// Taking an extent back right after it was handed out restores the pool, but
/// for the numbering.
pub proof fn law_release_undoes_allocate(a: AllocatorView, purpose: Purpose)
    requires
        a.sound(),
        a.next_id < u64::MAX,
        a.allocate(purpose).1 is Ok,
    ensures
        a.allocate(purpose).0.release(purpose) == (AllocatorView { next_id: (a.next_id + 1) as u64, ..a }),
{
}

/// Every extent handed out has a number that no earlier one had.
pub proof fn law_extent_numbers_are_fresh(a: AllocatorView, purpose: Purpose)
    requires
        a.next_id < u64::MAX,
        a.allocate(purpose).1 is Ok,
    ensures
        a.allocate(purpose).1->Ok_0.0.0 > a.next_id,
        a.allocate(purpose).0.next_id == a.allocate(purpose).1->Ok_0.0.0,
{
}

/// Metadata comes first: while anything is free, metadata gets an extent, and
/// whenever data gets one, metadata would too.
pub proof fn law_metadata_comes_first(a: AllocatorView)
    ensures
        a.allocate(Purpose::Metadata).1 is Ok <==> a.free > 0,
        a.allocate(Purpose::Data).1 is Ok ==> a.allocate(Purpose::Metadata).1 is Ok,
        a.allocate(Purpose::Data).1 is Ok <==> a.free > 0 && !(a.pressure() is Protected),
{
}

/// The less is free, the higher the pressure: with more free, a pool that was
/// not under protection is not, and a pool that was normal is normal.
pub proof fn law_pressure_follows_free_space(a: AllocatorView, b: AllocatorView)
    requires
        a.total == b.total,
        a.watermarks == b.watermarks,
        a.free <= b.free,
    ensures
        a.free_permille() <= b.free_permille(),
        b.pressure() is Protected ==> a.pressure() is Protected,
        a.pressure() is Normal ==> b.pressure() is Normal,
{
    if a.total > 0 {
        let (f, g, t) = (a.free as int, b.free as int, a.total as int);
        assert(f * 1000 / t <= g * 1000 / t) by (nonlinear_arith)
            requires
                f <= g,
                t > 0,
        ;
    }
}

/// Who gets an extent, in the numbers of the pool. Metadata does while anything is free.
/// Data does while, besides, the free thousandths of the pool are no fewer than the
/// protection watermark. Nothing changes for whoever is refused.
pub proof fn law_watermark_decides_for_data(a: AllocatorView, purpose: Purpose)
    requires
        a.sound(),
    ensures
        ({
            let (b, r) = a.allocate(purpose);
            &&& r is Ok <==> a.free > 0 && (purpose == Purpose::Data ==> a.free * 1000
                >= a.watermarks.protect_free_permille * a.total)
            &&& r matches Err(e) ==> b == a && e == (ErrorView::NoSpace { media: MediaClass::TlcNvme })
        }),
{
    lemma_permille(a.free as int, a.total as int, a.watermarks.protect_free_permille as int);
}

/// A quotient in whole thousandths reaches a mark if and only if the numbers do.
proof fn lemma_permille(free: int, total: int, mark: int)
    requires
        0 <= free,
        mark >= 0,
    ensures
        total > 0 ==> (free * 1000 / total < mark <==> free * 1000 < mark * total),
{
    if total > 0 {
        let q = free * 1000 / total;
        assert(q < mark <==> free * 1000 < mark * total) by (nonlinear_arith)
            requires
                total > 0,
                q == free * 1000 / total,
                free >= 0,
        ;
    }
}

/// The pressure on a pool, in its numbers: protected if fewer thousandths are free than the
/// protection watermark, otherwise to be relieved if fewer than the sink watermark, and
/// otherwise normal.
pub proof fn law_pressure_in_thousandths(a: AllocatorView)
    requires
        a.total > 0,
    ensures
        ({
            let free = a.free * 1000;
            let protect = a.watermarks.protect_free_permille * a.total;
            let sink = a.watermarks.sink_free_permille * a.total;
            &&& a.pressure() is Protected <==> free < protect
            &&& a.pressure() is SinkAdvised <==> protect <= free < sink
            &&& a.pressure() is Normal <==> free >= protect && free >= sink
        }),
{
    lemma_permille(a.free as int, a.total as int, a.watermarks.protect_free_permille as int);
    lemma_permille(a.free as int, a.total as int, a.watermarks.sink_free_permille as int);
}

/// A pool without extents has nothing free.
pub proof fn law_pressure_on_an_empty_pool(a: AllocatorView)
    requires
        a.total == 0,
    ensures
        a.pressure() is Protected <==> a.watermarks.protect_free_permille > 0,
        a.pressure() is Normal <==> a.watermarks.protect_free_permille == 0 && a.watermarks.sink_free_permille == 0,
{
}

/// An extent handed out is one less that is free and one more in use, for its purpose only;
/// it has the next number, and comes with the pressure that is then on the pool. One taken
/// back is one more that is free, up to the size of the pool, and one less in use, if any
/// was. Nothing else changes.
pub proof fn law_extents_are_counted(a: AllocatorView, purpose: Purpose)
    requires
        a.sound(),
        a.next_id < u64::MAX,
    ensures
        ({
            let (b, r) = a.allocate(purpose);
            let c = a.release(purpose);
            let meta = purpose == Purpose::Metadata;
            let less = |x: u64, y: u64| x == 0 && y == 0 || x > 0 && y == x - 1;
            &&& r matches Ok((id, pressure)) ==> {
                &&& id.0 == a.next_id + 1
                &&& pressure == b.pressure()
                &&& b.free == a.free - 1
                &&& b.next_id == a.next_id + 1
                &&& b.meta_used == a.meta_used + (if meta { 1int } else { 0 })
                &&& b.data_used == a.data_used + (if meta { 0int } else { 1 })
            }
            &&& b.total == a.total && b.watermarks == a.watermarks
            &&& c.free == a.free + 1 || (a.free == a.total && c.free == a.total)
            &&& c.free <= c.total
            &&& if meta {
                less(a.meta_used, c.meta_used) && c.data_used == a.data_used
            } else {
                less(a.data_used, c.data_used) && c.meta_used == a.meta_used
            }
            &&& c.total == a.total && c.watermarks == a.watermarks && c.next_id == a.next_id
        }),
{
}

} // verus!
