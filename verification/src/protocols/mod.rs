//! The boot protocols a kernel image can ask for, how each is recognised in
//! the image, and the boot information each one hands over.
use vstd::prelude::*;
use limine::{Limine, requests_limine};
use linux::{Linux, is_bzimage};
use multiboot1::{Multiboot1, requests_multiboot1};
use multiboot2::{Multiboot2, requests_multiboot2};

pub mod limine;
pub mod linux;
pub mod multiboot1;
pub mod multiboot2;

verus! {

/// A boot protocol recognisable from the kernel image alone.
pub trait BootProtocol {
    /// Whether `kernel` (the image file's bytes) asks to be booted this way.
    fn detect(kernel: &[u8]) -> bool;
}

/// The boot protocols the loader speaks.
#[derive(Copy, Clone, Debug, PartialEq, Eq, Structural)]
pub enum Protocol {
    Linux,
    Limine,
    Multiboot2,
    Multiboot1,
}

/// The protocol an image asks for, the first that matches in the order
/// Linux, Limine, Multiboot2, Multiboot1.
pub open spec fn spec_protocol(s: Seq<u8>) -> Option<Protocol> {
    if is_bzimage(s) {
        Some(Protocol::Linux)
    } else if requests_limine(s) {
        Some(Protocol::Limine)
    } else if requests_multiboot2(s) {
        Some(Protocol::Multiboot2)
    } else if requests_multiboot1(s) {
        Some(Protocol::Multiboot1)
    } else {
        None
    }
}

/// Linux takes precedence over every other protocol, Limine over both
/// Multiboot versions, and Multiboot2 over Multiboot1; an image that asks
/// for none of them gets no protocol, and each protocol is detected only
/// when the image asks for it.
pub proof fn lemma_protocol_precedence(s: Seq<u8>)
    ensures
        is_bzimage(s) ==> spec_protocol(s) == Some(Protocol::Linux),
        !is_bzimage(s) && requests_limine(s) ==> spec_protocol(s) == Some(Protocol::Limine),
        !is_bzimage(s) && !requests_limine(s) && requests_multiboot2(s) ==> spec_protocol(s) == Some(
            Protocol::Multiboot2,
        ),
        !is_bzimage(s) && !requests_limine(s) && !requests_multiboot2(s) && requests_multiboot1(s)
            ==> spec_protocol(s) == Some(Protocol::Multiboot1),
        !is_bzimage(s) && !requests_limine(s) && !requests_multiboot2(s) && !requests_multiboot1(s)
            ==> spec_protocol(s) is None,
        spec_protocol(s) == Some(Protocol::Linux) ==> is_bzimage(s),
        spec_protocol(s) == Some(Protocol::Limine) ==> requests_limine(s),
        spec_protocol(s) == Some(Protocol::Multiboot2) ==> requests_multiboot2(s),
        spec_protocol(s) == Some(Protocol::Multiboot1) ==> requests_multiboot1(s),
{
}

/// Finds the protocol the kernel image asks for; `None` when it asks for
/// none the loader speaks.
pub fn detect_protocol(kernel: &[u8]) -> (p: Option<Protocol>)
    ensures
        p == spec_protocol(kernel@),
{
    if Linux::detect(kernel) {
        Some(Protocol::Linux)
    } else if Limine::detect(kernel) {
        Some(Protocol::Limine)
    } else if Multiboot2::detect(kernel) {
        Some(Protocol::Multiboot2)
    } else if Multiboot1::detect(kernel) {
        Some(Protocol::Multiboot1)
    } else {
        None
    }
}

} // verus!
