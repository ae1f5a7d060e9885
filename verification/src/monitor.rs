//! Plain data records for system monitoring, and byte-count formatting.
//!
//! The sampling itself is outside work; what stands here are the value
//! types the samples arrive in, the process-table column descriptors, and
//! the human-readable rendering of byte counts.
use vstd::prelude::*;
use vstd::arithmetic::div_mod::lemma_div_is_ordered_by_denominator;
use vstd::string::StringExecFns;

use crate::strutil::ascii_string;

verus! {

pub const KB: u64 = 1024;

pub const MB: u64 = KB * 1024;

pub const GB: u64 = MB * 1024;

pub const TB: u64 = GB * 1024;

/// Memory usage in bytes.
#[derive(Debug, Clone)]
pub struct MemoryInfo {
    pub total: u64,
    pub used: u64,
    pub available: u64,
}

/// One disk's capacity in bytes.
#[derive(Debug, Clone)]
pub struct DiskInfo {
    pub name: String,
    pub total: u64,
    pub available: u64,
}

/// One network interface's running byte totals.
#[derive(Debug, Clone)]
pub struct NetworkInfo {
    pub interface: String,
    pub received: u64,
    pub transmitted: u64,
}

/// One process's resource usage.  Processor usage is carried in hundredths
/// of a percent.
#[derive(Debug, Clone)]
pub struct ProcessInfo {
    pub pid: u32,
    pub name: String,
    pub cpu_centi_percent: u64,
    pub memory: u64,
    pub disk_usage: u64,
}

/// One processor core's usage, in hundredths of a percent.
#[derive(Debug, Clone)]
pub struct CpuInfo {
    pub usage_centi_percent: u64,
    pub name: String,
}

/// The columns of the process table.
#[derive(Debug, Clone, Copy, PartialEq, Eq)]
pub enum ProcessColumn {
    Name,
    Pid,
    Cpu,
    Memory,
    Disk,
}

impl ProcessColumn {
    /// The column's display label.
    pub fn label(&self) -> (r: &'static str)
        ensures
            self is Name ==> r@ == "Name"@,
            self is Pid ==> r@ == "PID"@,
            self is Cpu ==> r@ == "CPU %"@,
            self is Memory ==> r@ == "Memory"@,
            self is Disk ==> r@ == "Disk"@,
    {
        match self {
            ProcessColumn::Name => "Name",
            ProcessColumn::Pid => "PID",
            ProcessColumn::Cpu => "CPU %",
            ProcessColumn::Memory => "Memory",
            ProcessColumn::Disk => "Disk",
        }
    }

    /// The column's sort key.
    pub fn key(&self) -> (r: &'static str)
        ensures
            self is Name ==> r@ == "name"@,
            self is Pid ==> r@ == "pid"@,
            self is Cpu ==> r@ == "cpu"@,
            self is Memory ==> r@ == "memory"@,
            self is Disk ==> r@ == "disk"@,
    {
        match self {
            ProcessColumn::Name => "name",
            ProcessColumn::Pid => "pid",
            ProcessColumn::Cpu => "cpu",
            ProcessColumn::Memory => "memory",
            ProcessColumn::Disk => "disk",
        }
    }

    /// All columns, in display order.
    pub fn all() -> (r: Vec<ProcessColumn>)
        ensures
            r@ =~= seq![
                ProcessColumn::Name,
                ProcessColumn::Pid,
                ProcessColumn::Cpu,
                ProcessColumn::Memory,
                ProcessColumn::Disk,
            ],
    {
        let mut r: Vec<ProcessColumn> = Vec::new();
        r.push(ProcessColumn::Name);
        r.push(ProcessColumn::Pid);
        r.push(ProcessColumn::Cpu);
        r.push(ProcessColumn::Memory);
        r.push(ProcessColumn::Disk);
        r
    }
}

/// The character of one decimal digit.
pub open spec fn digit_char(d: int) -> char {
    ((48 + d) as u8) as char
}

/// The decimal digits of a non-negative number, most significant first.
pub open spec fn dec_chars(n: int) -> Seq<char>
    decreases n,
{
    if n < 10 {
        seq![digit_char(n)]
    } else {
        dec_chars(n / 10).push(digit_char(n % 10))
    }
}

/// The byte of one decimal digit.
pub open spec fn dec_byte(d: int) -> u8 {
    (48 + d) as u8
}

/// The decimal digits of a non-negative number as bytes.
pub open spec fn dec_bytes(n: int) -> Seq<u8>
    decreases n,
{
    if n < 10 {
        seq![dec_byte(n)]
    } else {
        dec_bytes(n / 10).push(dec_byte(n % 10))
    }
}

/// Digit bytes are ASCII, and decode to the digit characters.
proof fn lemma_dec_ascii(n: int)
    requires
        n >= 0,
    ensures
        dec_bytes(n).len() == dec_chars(n).len(),
        forall|i: int|
            0 <= i < dec_bytes(n).len() ==> (#[trigger] dec_bytes(n)[i]) < 0x80 && dec_chars(n)[i]
                == dec_bytes(n)[i] as char,
    decreases n,
{
    if n >= 10 {
        lemma_dec_ascii(n / 10);
    }
}

/// A whole part, a dot, a zero-padded two-digit fraction, and a unit
/// suffix: the rendering of a value scaled to hundredths.
pub open spec fn spec_fmt2(q: int, suffix: Seq<char>) -> Seq<char> {
    dec_chars(q / 100) + "."@ + seq![digit_char((q % 100) / 10), digit_char(q % 10)] + suffix
}

/// A byte count scaled to hundredths of the unit, rounded to nearest (half
/// away from zero).
pub open spec fn spec_scaled(bytes: u64, unit: u64) -> int {
    ((bytes * 100 + unit / 2) as int) / (unit as int)
}

/// Append the decimal digits of `n`.
fn push_dec(out: &mut Vec<u8>, n: u64)
    ensures
        final(out)@ == old(out)@ + dec_bytes(n as int),
    decreases n,
{
    if n >= 10 {
        push_dec(out, n / 10);
    }
    out.push(48 + (n % 10) as u8);
    proof {
        if n < 10 {
            assert(out@ =~= old(out)@ + dec_bytes(n as int));
        } else {
            assert(out@ =~= old(out)@ + dec_bytes(n as int));
        }
    }
}

/// The decimal rendering of a number.
pub fn dec_string(n: u64) -> (r: String)
    ensures
        r@ == dec_chars(n as int),
{
    let mut out: Vec<u8> = Vec::new();
    push_dec(&mut out, n);
    proof {
        lemma_dec_ascii(n as int);
        assert(out@ =~= dec_bytes(n as int));
    }
    let r = ascii_string(out);
    proof {
        assert(r@ =~= dec_chars(n as int));
    }
    r
}

/// Render a value scaled to hundredths with two decimals and a suffix.
fn format_scaled(q: u64, suffix: &str) -> (r: String)
    ensures
        r@ == spec_fmt2(q as int, suffix@),
{
    let mut s = dec_string(q / 100);
    s.append(".");
    let frac = q % 100;
    let mut fb: Vec<u8> = Vec::new();
    fb.push(48 + (frac / 10) as u8);
    fb.push(48 + (frac % 10) as u8);
    let fs = ascii_string(fb);
    proof {
        assert(fs@ =~= seq![digit_char(((q % 100) / 10) as int), digit_char((q % 10) as int)]);
    }
    s.append(fs.as_str());
    s.append(suffix);
    proof {
        assert(s@ =~= spec_fmt2(q as int, suffix@));
    }
    s
}

/// Scale a byte count to hundredths of the unit, rounding to nearest.
fn scaled(bytes: u64, unit: u64) -> (q: u64)
    requires
        1024 <= unit,
    ensures
        q as int == spec_scaled(bytes, unit),
{
    let num: u128 = (bytes as u128) * 100 + (unit as u128) / 2;
    let q: u128 = num / (unit as u128);
    proof {
        lemma_div_is_ordered_by_denominator(num as int, 1024, unit as int);
        assert(num as int / 1024 < 0x10000000000000000) by {
            assert(num <= 0xffffffffffffffff * 100 + 0x8000000000000000);
        }
    }
    q as u64
}

/// Render a byte count with its binary unit: plain bytes below one
/// kibibyte, else two decimals of the largest unit the count reaches.
pub fn format_bytes(bytes: u64) -> (r: String)
    ensures
        bytes < KB ==> r@ == dec_chars(bytes as int) + " B"@,
        KB <= bytes < MB ==> r@ == spec_fmt2(spec_scaled(bytes, KB), " KB"@),
        MB <= bytes < GB ==> r@ == spec_fmt2(spec_scaled(bytes, MB), " MB"@),
        GB <= bytes < TB ==> r@ == spec_fmt2(spec_scaled(bytes, GB), " GB"@),
        bytes >= TB ==> r@ == spec_fmt2(spec_scaled(bytes, TB), " TB"@),
{
    if bytes >= TB {
        format_scaled(scaled(bytes, TB), " TB")
    } else if bytes >= GB {
        format_scaled(scaled(bytes, GB), " GB")
    } else if bytes >= MB {
        format_scaled(scaled(bytes, MB), " MB")
    } else if bytes >= KB {
        format_scaled(scaled(bytes, KB), " KB")
    } else {
        let mut s = dec_string(bytes);
        s.append(" B");
        s
    }
}

} // verus!
