//! What the boot logic asks of the firmware it runs on.
use vstd::prelude::*;

verus! {

/// The firmware services the loader needs: page allocation and buffer release.
///
/// A firmware entry point implements this trait (UEFI boot services, for
/// instance). Nothing is assumed of what the methods return: the loader
/// reaches them through `Firmware`, which records each request with its
/// answer, and its contracts say which requests it makes and what holds
/// whatever comes back. The page-table guarantees are stated for runs where
/// the pages handed out were distinct, page aligned and below the physical
/// address limit.
pub trait FirmwareInterface {
    /// Allocates `count` contiguous 4 KiB pages anywhere; returns their physical address.
    fn allocate_pages(&mut self, count: usize) -> u64;

    /// Allocates `count` contiguous 4 KiB pages at exactly `address`, if free.
    fn try_allocate_pages_at(&mut self, address: u64, count: usize) -> Option<u64>;

    /// Releases a buffer the firmware handed out earlier, named by its address.
    fn free_buffer(&mut self, address: u64);
}

/// A request made to the firmware, with the firmware's answer.
#[derive(Copy, Clone, Debug, PartialEq, Eq)]
pub enum FirmwareRequest {
    /// `count` pages anywhere; they start at `address`.
    AllocatePages { count: usize, address: u64 },
    /// `count` pages at exactly `address`; `granted` is where they start, if given.
    AllocatePagesAt { address: u64, count: usize, granted: Option<u64> },
    /// The buffer at `address` is released.
    FreeBuffer { address: u64 },
}

/// A firmware together with the record of the requests made to it through
/// this value, oldest first.
pub struct Firmware<F: FirmwareInterface> {
    inner: F,
    log: Ghost<Seq<FirmwareRequest>>,
}

impl<F: FirmwareInterface> Firmware<F> {
    /// The requests made so far, with their answers, oldest first.
    pub closed spec fn requests(&self) -> Seq<FirmwareRequest> {
        self.log@
    }

    /// Starts recording the requests made to `inner`.
    pub fn new(inner: F) -> (f: Self)
        ensures
            f.requests() == Seq::<FirmwareRequest>::empty(),
    {
        Firmware { inner, log: Ghost(Seq::empty()) }
    }

    /// The firmware itself.
    pub fn inner(&self) -> &F {
        &self.inner
    }

    /// Asks for `count` pages anywhere.
    pub fn allocate_pages(&mut self, count: usize) -> (address: u64)
        ensures
            final(self).requests() == old(self).requests().push(
                FirmwareRequest::AllocatePages { count, address },
            ),
    {
        let address = self.inner.allocate_pages(count);
        self.log = Ghost(self.log@.push(FirmwareRequest::AllocatePages { count, address }));
        address
    }

    /// Asks for `count` pages at exactly `address`.
    pub fn try_allocate_pages_at(&mut self, address: u64, count: usize) -> (granted: Option<u64>)
        ensures
            final(self).requests() == old(self).requests().push(
                FirmwareRequest::AllocatePagesAt { address, count, granted },
            ),
    {
        let granted = self.inner.try_allocate_pages_at(address, count);
        self.log = Ghost(self.log@.push(FirmwareRequest::AllocatePagesAt { address, count, granted }));
        granted
    }

    /// Releases the buffer at `address`.
    pub fn free_buffer(&mut self, address: u64)
        ensures
            final(self).requests() == old(self).requests().push(FirmwareRequest::FreeBuffer { address }),
    {
        self.inner.free_buffer(address);
        self.log = Ghost(self.log@.push(FirmwareRequest::FreeBuffer { address }));
    }
}

} // verus!
