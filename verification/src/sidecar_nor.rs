//! A minimal SPI NOR client over the sidecar HAL path: the NOR commands of
//! [`crate::nor_ops`] sent through a [`SidecarSpiBus`].
//!
//! Every transaction opens and closes the adapter session itself, so
//! [`SidecarNor::close`] is idempotent.
use vstd::prelude::*;
use crate::hal_router::{AdapterClient, HalRouter};
use crate::nor_ops::{program_frame, read_frame, sector_erase_frame, wren, PAGE_SIZE};
use crate::spi_bus::{SidecarSpiBus, SpiBus, SpiTransfer, transfer};

verus! {

/// An SPI NOR session routed through a sidecar adapter.
pub struct SidecarNor<'a, C: AdapterClient> {
    pub bus: SidecarSpiBus<'a, C>,
}

impl<'a, C: AdapterClient> SidecarNor<'a, C> {
    /// The transactions sent so far.
    pub open spec fn history(&self) -> Seq<SpiTransfer> {
        self.bus.history()
    }

    /// Open the adapter device and wrap it as an SPI NOR client.
    pub fn open(router: &'a mut HalRouter<C>, adapter: &str, device_id: &str) -> (r: Result<Self, String>)
        ensures
            r matches Ok(n) ==> n.history().len() == 0 && n.bus.adapter@ == adapter@ && n.bus.device_id@ == device_id@,
    {
        router.open(adapter, device_id)?;
        Ok(SidecarNor { bus: SidecarSpiBus::new(router, String::from_str(adapter), String::from_str(device_id)) })
    }

    /// Read the JEDEC id (`[0x9F]`, three bytes).
    pub fn read_id(&mut self) -> (r: Result<[u8; 3], String>)
        ensures
            final(self).history() == old(self).history().push(transfer(seq![0x9Fu8], 3)),
    {
        crate::nor_ops::read_id(&mut self.bus)
    }

    /// Read `len` bytes at `addr` (`[0x03, a2, a1, a0]`).
    pub fn read(&mut self, addr: usize, len: usize) -> (r: Result<Vec<u8>, String>)
        ensures
            len == 0 ==> (r matches Ok(v) && v@.len() == 0),
            len > 0 && addr > 0xFF_FFFF ==> r is Err && final(self).history() == old(self).history(),
            len > 0 && addr <= 0xFF_FFFF ==> final(self).history() == old(self).history().push(transfer(read_frame(addr as int), len as nat)),
            r matches Ok(v) ==> v@.len() == len,
    {
        crate::nor_ops::read(&mut self.bus, addr, len)
    }

    /// Write enable and program `data` (1..=256 bytes) at `addr`.
    pub fn program_page(&mut self, addr: usize, data: &[u8]) -> (r: Result<(), String>)
        ensures
            data@.len() == 0 || data@.len() > PAGE_SIZE || addr > 0xFF_FFFF ==> r is Err && final(self).history() == old(self).history()
                && r->Err_0@ == crate::nor_ops::program_error_text(addr as nat, data@.len()),
            0 < data@.len() <= PAGE_SIZE && addr <= 0xFF_FFFF ==> {
                ||| r is Err && final(self).history() == old(self).history().push(wren())
                ||| final(self).history() == old(self).history().push(wren()).push(transfer(program_frame(addr as int, data@), 0))
            },
    {
        crate::nor_ops::page_program(&mut self.bus, addr, data)
    }

    /// Write enable and erase the whole chip (`[0xC7]`).
    pub fn erase_chip(&mut self) -> (r: Result<(), String>)
        ensures
            r is Err && final(self).history() == old(self).history().push(wren())
                || final(self).history() == old(self).history().push(wren()).push(transfer(seq![0xC7u8], 0)),
    {
        crate::nor_ops::erase_chip(&mut self.bus)
    }

    /// Write enable and erase the 4 KiB sector at `addr` (`[0x20, a2, a1, a0]`).
    pub fn erase_sector(&mut self, addr: usize) -> (r: Result<(), String>)
        ensures
            addr > 0xFF_FFFF ==> r is Err && final(self).history() == old(self).history(),
            addr <= 0xFF_FFFF ==> {
                ||| r is Err && final(self).history() == old(self).history().push(wren())
                ||| final(self).history() == old(self).history().push(wren()).push(transfer(sector_erase_frame(addr as int), 0))
            },
    {
        crate::nor_ops::erase_sector(&mut self.bus, addr)
    }

    /// Read back `data.len()` bytes at `addr` and report the first mismatch.
    pub fn verify(&mut self, addr: usize, data: &[u8]) -> (r: Result<(), String>)
        ensures
            data@.len() == 0 ==> r is Ok && final(self).history() == old(self).history(),
            data@.len() > 0 && addr > 0xFF_FFFF ==> r is Err && final(self).history() == old(self).history(),
            data@.len() > 0 && addr <= 0xFF_FFFF ==> final(self).history() == old(self).history().push(transfer(read_frame(addr as int), data@.len())),
    {
        crate::nor_ops::verify(&mut self.bus, addr, data)
    }

    /// Close the adapter session if one is still open; a missing session is
    /// not an error, so closing always succeeds.
    pub fn close(self) -> (r: Result<(), String>)
        ensures
            r is Ok,
            !crate::hal_router::has_pair(final(self.bus.router).session_list(), self.bus.adapter@, self.bus.device_id@),
    {
        let SidecarNor { bus } = self;
        let SidecarSpiBus { router, adapter, device_id, log: _, answers: _ } = bus;
        if router.has_session(adapter.as_str(), device_id.as_str()) {
            router.close(adapter.as_str(), device_id.as_str())?;
        }
        Ok(())
    }
}

} // verus!
