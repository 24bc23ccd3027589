//! Diagnostic texts.
use crate::loader::rtld::elf::tables::copy_bytes;
use vstd::prelude::*;
use vstd::string::StringSliceAdditionalSpecFns;

verus! {

/// The digit for a value, in ASCII.
pub open spec fn digit(v: int) -> u8 {
    if v < 10 {
        (0x30 + v) as u8
    } else {
        (0x61 + v - 10) as u8
    }
}

/// A number written in a base, without leading zeroes.
pub open spec fn number_text(v: int, base: int) -> Seq<u8>
    decreases v,
    via number_text_ends
{
    if base < 2 || v < base {
        seq![digit(v)]
    } else {
        number_text(v / base, base).push(digit(v % base))
    }
}

#[via_fn]
proof fn number_text_ends(v: int, base: int) {
    if base >= 2 && v >= base {
        lemma_quotient(v, base);
    }
}

proof fn lemma_quotient(v: int, base: int)
    requires
        2 <= base <= v,
    ensures
        0 <= v / base < v,
{
    assert(v / base < v && v / base >= 0) by (nonlinear_arith)
        requires v >= base, base >= 2;
}

fn push_number(out: &mut Vec<u8>, v: u64, base: u64)
    requires
        2 <= base <= 16,
    ensures
        final(out)@ == old(out)@ + number_text(v as int, base as int),
    decreases v,
{
    proof {
        if v >= base {
            lemma_quotient(v as int, base as int);
        } else {
            vstd::arithmetic::div_mod::lemma_small_mod(v as nat, base as nat);
        }
        vstd::arithmetic::div_mod::lemma_mod_bound(v as int, base as int);
    }
    if v >= base {
        push_number(out, v / base, base);
    }
    let d: u8 = (v % base) as u8;
    out.push(
        if d < 10 {
            0x30 + d
        } else {
            0x61 + (d - 10)
        },
    );
    assert(out@ =~= old(out)@ + number_text(v as int, base as int));
}

/// A value in hexadecimal with its prefix.
pub fn print_hex(val: u64) -> (r: Vec<u8>)
    ensures
        r@ == seq![0x30u8, 0x78u8] + number_text(val as int, 16),
{
    let mut out: Vec<u8> = Vec::new();
    out.push(0x30);
    out.push(0x78);
    assert(out@ =~= seq![0x30u8, 0x78u8]);
    push_number(&mut out, val, 16);
    out
}

/// A value in decimal.
pub fn print_dec(val: u64) -> (r: Vec<u8>)
    ensures
        r@ == number_text(val as int, 10),
{
    let mut out: Vec<u8> = Vec::new();
    push_number(&mut out, val, 10);
    assert(out@ =~= number_text(val as int, 10));
    out
}

/// The value of a digit.
pub open spec fn digit_value(d: u8) -> int {
    if d < 0x61 {
        d - 0x30
    } else {
        d - 0x61 + 10
    }
}

/// The number that digits stand for.
pub open spec fn text_value(s: Seq<u8>, base: int) -> int
    decreases s.len(),
{
    if s.len() == 0 {
        0
    } else {
        text_value(s.drop_last(), base) * base + digit_value(s.last())
    }
}

/// The text of a number reads back as that number.
pub proof fn lemma_number_text_reads_back(v: int, base: int)
    requires
        0 <= v,
        2 <= base <= 16,
    ensures
        text_value(number_text(v, base), base) == v,
    decreases v,
{
    let s = number_text(v, base);
    if v < base {
        assert(s.drop_last() =~= Seq::empty());
        assert(text_value(s.drop_last(), base) == 0);
        assert(0 * base == 0);
    } else {
        lemma_quotient(v, base);
        lemma_number_text_reads_back(v / base, base);
        assert(s.drop_last() =~= number_text(v / base, base));
        vstd::arithmetic::div_mod::lemma_fundamental_div_mod(v, base);
        vstd::arithmetic::div_mod::lemma_mod_bound(v, base);
        assert((v / base) * base == base * (v / base)) by (nonlinear_arith);
    }
}

/// The kernel's errors.
#[derive(Clone, Copy, PartialEq, Eq, Debug, Structural)]
pub enum TronaError {
    Success,
    InvalidCapability,
    InvalidOperation,
    InsufficientRights,
    InvalidArgument,
    OutOfMemory,
    NotFound,
    Busy,
    AlreadyExists,
    WouldBlock,
    BadAddress,
    OutOfRange,
    Cancelled,
    Restart,
    Deadlock,
    Interrupted,
    TooLarge,
    NotSupported,
    Readonly,
    SlotOccupied,
    AlreadyMapped,
    PeerClosed,
    QueueOverflow,
    WatchCancelled,
    AbiMismatch,
    IoError,
    TimedOut,
    Pending,
    InsufficientResources,
    Unknown,
}

/// The name of a kernel error.
pub open spec fn error_name(err: TronaError) -> &'static str {
    match err {
        TronaError::Success => "KERNITE_OK",
        TronaError::InvalidCapability => "KERNITE_ERR_INVALID_CAPABILITY",
        TronaError::InvalidOperation => "KERNITE_ERR_INVALID_OPERATION",
        TronaError::InsufficientRights => "KERNITE_ERR_INSUFFICIENT_RIGHTS",
        TronaError::InvalidArgument => "KERNITE_ERR_INVALID_ARGUMENT",
        TronaError::OutOfMemory => "KERNITE_ERR_OUT_OF_MEMORY",
        TronaError::NotFound => "KERNITE_ERR_NOT_FOUND",
        TronaError::Busy => "KERNITE_ERR_BUSY",
        TronaError::AlreadyExists => "KERNITE_ERR_ALREADY_EXISTS",
        TronaError::WouldBlock => "KERNITE_ERR_WOULD_BLOCK",
        TronaError::BadAddress => "KERNITE_ERR_BAD_ADDRESS",
        TronaError::OutOfRange => "KERNITE_ERR_OUT_OF_RANGE",
        TronaError::Cancelled => "KERNITE_ERR_CANCELLED",
        TronaError::Restart => "KERNITE_ERR_RESTART",
        TronaError::Deadlock => "KERNITE_ERR_DEADLOCK",
        TronaError::Interrupted => "KERNITE_ERR_INTERRUPTED",
        TronaError::TooLarge => "KERNITE_ERR_TOO_LARGE",
        TronaError::NotSupported => "KERNITE_ERR_NOT_SUPPORTED",
        TronaError::Readonly => "KERNITE_ERR_READONLY",
        TronaError::SlotOccupied => "KERNITE_ERR_SLOT_OCCUPIED",
        TronaError::AlreadyMapped => "KERNITE_ERR_ALREADY_MAPPED",
        TronaError::PeerClosed => "KERNITE_ERR_PEER_CLOSED",
        TronaError::QueueOverflow => "KERNITE_ERR_QUEUE_OVERFLOW",
        TronaError::WatchCancelled => "KERNITE_ERR_WATCH_CANCELLED",
        TronaError::AbiMismatch => "KERNITE_ERR_ABI_MISMATCH",
        TronaError::IoError => "KERNITE_ERR_IO_ERROR",
        TronaError::TimedOut => "KERNITE_ERR_TIMED_OUT",
        TronaError::Pending => "KERNITE_ERR_PENDING",
        TronaError::InsufficientResources => "KERNITE_ERR_INSUFFICIENT_RESOURCES",
        TronaError::Unknown => "KERNITE_UNKNOWN",
    }
}

/// The name of a kernel error.
pub fn trona_error_name(err: TronaError) -> (r: &'static str)
    ensures
        r@ == error_name(err)@,
{
    match err {
        TronaError::Success => "KERNITE_OK",
        TronaError::InvalidCapability => "KERNITE_ERR_INVALID_CAPABILITY",
        TronaError::InvalidOperation => "KERNITE_ERR_INVALID_OPERATION",
        TronaError::InsufficientRights => "KERNITE_ERR_INSUFFICIENT_RIGHTS",
        TronaError::InvalidArgument => "KERNITE_ERR_INVALID_ARGUMENT",
        TronaError::OutOfMemory => "KERNITE_ERR_OUT_OF_MEMORY",
        TronaError::NotFound => "KERNITE_ERR_NOT_FOUND",
        TronaError::Busy => "KERNITE_ERR_BUSY",
        TronaError::AlreadyExists => "KERNITE_ERR_ALREADY_EXISTS",
        TronaError::WouldBlock => "KERNITE_ERR_WOULD_BLOCK",
        TronaError::BadAddress => "KERNITE_ERR_BAD_ADDRESS",
        TronaError::OutOfRange => "KERNITE_ERR_OUT_OF_RANGE",
        TronaError::Cancelled => "KERNITE_ERR_CANCELLED",
        TronaError::Restart => "KERNITE_ERR_RESTART",
        TronaError::Deadlock => "KERNITE_ERR_DEADLOCK",
        TronaError::Interrupted => "KERNITE_ERR_INTERRUPTED",
        TronaError::TooLarge => "KERNITE_ERR_TOO_LARGE",
        TronaError::NotSupported => "KERNITE_ERR_NOT_SUPPORTED",
        TronaError::Readonly => "KERNITE_ERR_READONLY",
        TronaError::SlotOccupied => "KERNITE_ERR_SLOT_OCCUPIED",
        TronaError::AlreadyMapped => "KERNITE_ERR_ALREADY_MAPPED",
        TronaError::PeerClosed => "KERNITE_ERR_PEER_CLOSED",
        TronaError::QueueOverflow => "KERNITE_ERR_QUEUE_OVERFLOW",
        TronaError::WatchCancelled => "KERNITE_ERR_WATCH_CANCELLED",
        TronaError::AbiMismatch => "KERNITE_ERR_ABI_MISMATCH",
        TronaError::IoError => "KERNITE_ERR_IO_ERROR",
        TronaError::TimedOut => "KERNITE_ERR_TIMED_OUT",
        TronaError::Pending => "KERNITE_ERR_PENDING",
        TronaError::InsufficientResources => "KERNITE_ERR_INSUFFICIENT_RESOURCES",
        TronaError::Unknown => "KERNITE_UNKNOWN",
    }
}

/// The text for a kernel error: its name, then the number in brackets.
pub open spec fn error_text(err: TronaError, number: u64) -> Seq<u8> {
    error_name(err).spec_bytes() + seq![0x20u8, 0x28u8] + (seq![0x30u8, 0x78u8] + number_text(
        number as int,
        16,
    )) + seq![0x29u8]
}

/// The text for a kernel error.
pub fn print_trona_error(err: TronaError, number: u64) -> (r: Vec<u8>)
    ensures
        r@ == error_text(err, number),
{
    let mut out: Vec<u8> = copy_bytes(trona_error_name(err).as_bytes());
    out.push(0x20);
    out.push(0x28);
    let mut hex: Vec<u8> = print_hex(number);
    out.append(&mut hex);
    out.push(0x29);
    assert(out@ =~= error_text(err, number));
    out
}

} // verus!
