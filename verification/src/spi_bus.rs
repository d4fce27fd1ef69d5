//! Shared SPI bus abstraction.
//!
//! [`SpiBus`] turns every hardware path (CH34X programmers, serprog
//! programmers, sidecar adapter plugins) into one full-duplex transaction
//! primitive, so the SPI NOR logic can target any of them.
use vstd::prelude::*;
use crate::ch34x::ProgrammerHal;
use crate::hal_router::{AdapterClient, HalRouter};

verus! {

/// One full-duplex SPI transaction as handed to a bus: the complete
/// command/address/payload frame and the number of bytes clocked back.
pub struct SpiTransfer {
    pub write: Seq<u8>,
    pub read_len: nat,
}

/// The transfer `write` followed by `read_len` bytes read back.
pub open spec fn transfer(write: Seq<u8>, read_len: nat) -> SpiTransfer {
    SpiTransfer { write, read_len }
}

/// What a transaction gave back: the bytes read, or nothing when it failed.
pub open spec fn reply_of(r: Result<Vec<u8>, String>) -> Option<Seq<u8>> {
    match r {
        Ok(v) => Some(v@),
        Err(_) => None,
    }
}

/// A full-duplex SPI bus.
///
/// `write` is the complete command + address + payload frame and `read_len`
/// bytes are clocked back during or right after it; chip select is handled by
/// the implementation. `history` is the ghost record of every transaction the
/// bus was asked to run, in order, and `replies` what each of them gave
/// back.
pub trait SpiBus {
    spec fn history(&self) -> Seq<SpiTransfer>;

    spec fn replies(&self) -> Seq<Option<Seq<u8>>>;

    /// Run one SPI transaction and return the bytes read back.
    fn transact(&mut self, write: &[u8], read_len: usize) -> (r: Result<Vec<u8>, String>)
        ensures
            final(self).history() == old(self).history().push(transfer(write@, read_len as nat)),
            final(self).replies() == old(self).replies().push(reply_of(r)),
    ;

    /// Maximum write-frame length per transaction.
    fn max_write(&self) -> usize;

    /// Maximum read length per transaction.
    fn max_read(&self) -> usize;
}

/// [`SpiBus`] over a CH34X programmer: chip select is asserted around the
/// whole transaction (CS low, write, read, CS high); an error stops the
/// sequence where it happened.
pub struct Ch34xSpiBus<'a, H: ProgrammerHal + ?Sized> {
    pub dev: &'a H,
    pub log: Ghost<Seq<SpiTransfer>>,
    pub answers: Ghost<Seq<Option<Seq<u8>>>>,
}

impl<'a, H: ProgrammerHal + ?Sized> Ch34xSpiBus<'a, H> {
    /// A bus over `dev` with an empty history.
    pub fn new(dev: &'a H) -> (b: Self)
        ensures
            b.history() == Seq::<SpiTransfer>::empty(),
            b.replies() == Seq::<Option<Seq<u8>>>::empty(),
    {
        Ch34xSpiBus { dev, log: Ghost(Seq::empty()), answers: Ghost(Seq::empty()) }
    }
}

/// One CH34X transaction: CS low, write, read `read_len` bytes, CS high.
fn ch34x_transaction<H: ProgrammerHal + ?Sized>(dev: &H, write: &[u8], read_len: usize) -> (r: Result<Vec<u8>, String>)
    ensures
        r matches Ok(v) ==> v@.len() == read_len,
{
    dev.cs_low()?;
    dev.spi_tx(write)?;
    if read_len == 0 {
        dev.cs_high()?;
        return Ok(Vec::new());
    }
    let mut read = crate::protocols::vec_filled(0, read_len);
    dev.spi_rx(read.as_mut_slice())?;
    dev.cs_high()?;
    Ok(read)
}

impl<'a, H: ProgrammerHal + ?Sized> SpiBus for Ch34xSpiBus<'a, H> {
    open spec fn history(&self) -> Seq<SpiTransfer> {
        self.log@
    }

    open spec fn replies(&self) -> Seq<Option<Seq<u8>>> {
        self.answers@
    }

    fn transact(&mut self, write: &[u8], read_len: usize) -> (r: Result<Vec<u8>, String>) {
        let r = ch34x_transaction(self.dev, write, read_len);
        proof {
            self.log@ = self.log@.push(transfer(write@, read_len as nat));
            self.answers@ = self.answers@.push(reply_of(r));
        }
        r
    }

    fn max_write(&self) -> usize {
        self.dev.spi_frame_limit()
    }

    fn max_read(&self) -> usize {
        self.dev.spi_frame_limit()
    }
}

/// [`SpiBus`] over a sidecar adapter device: every transaction opens the
/// device session, runs the transfer and closes the session again.
pub struct SidecarSpiBus<'a, C: AdapterClient> {
    pub router: &'a mut HalRouter<C>,
    pub adapter: String,
    pub device_id: String,
    pub log: Ghost<Seq<SpiTransfer>>,
    pub answers: Ghost<Seq<Option<Seq<u8>>>>,
}

impl<'a, C: AdapterClient> SidecarSpiBus<'a, C> {
    /// A bus on `adapter`/`device_id` with an empty history.
    pub fn new(router: &'a mut HalRouter<C>, adapter: String, device_id: String) -> (b: Self)
        ensures
            b.history() == Seq::<SpiTransfer>::empty(),
            b.replies() == Seq::<Option<Seq<u8>>>::empty(),
            b.adapter@ == adapter@,
            b.device_id@ == device_id@,
    {
        SidecarSpiBus { router, adapter, device_id, log: Ghost(Seq::empty()), answers: Ghost(Seq::empty()) }
    }
}

impl<'a, C: AdapterClient> SidecarSpiBus<'a, C> {
    fn run(&mut self, write: &[u8], read_len: usize) -> (r: Result<Vec<u8>, String>)
        ensures
            final(self).log == old(self).log,
            final(self).answers == old(self).answers,
    {
        self.router.open(self.adapter.as_str(), self.device_id.as_str())?;
        let result = self.router.spi_transact(self.adapter.as_str(), self.device_id.as_str(), write, read_len);
        let _ = self.router.close(self.adapter.as_str(), self.device_id.as_str());
        result
    }
}

impl<'a, C: AdapterClient> SpiBus for SidecarSpiBus<'a, C> {
    open spec fn history(&self) -> Seq<SpiTransfer> {
        self.log@
    }

    open spec fn replies(&self) -> Seq<Option<Seq<u8>>> {
        self.answers@
    }

    fn transact(&mut self, write: &[u8], read_len: usize) -> (r: Result<Vec<u8>, String>) {
        let r = self.run(write, read_len);
        proof {
            self.log@ = self.log@.push(transfer(write@, read_len as nat));
            self.answers@ = self.answers@.push(reply_of(r));
        }
        r
    }

    fn max_write(&self) -> usize {
        4096
    }

    fn max_read(&self) -> usize {
        65536
    }
}

} // verus!
