//! Bounded reports of hardware accesses the headless bus does not model.
//!
//! What is reported is what could leave a picture incomplete: an enabled
//! HDMA, a PPU latch read, an SA-1 register outside the model. Accesses
//! with nothing to model (open bus, read-only registers, controllers,
//! registers whose effect the capture passes read from RAM) are counted
//! on the bus as stubs and never reported. Reporting changes nothing:
//! an unmodelled read still returns zero and an unmodelled write is
//! still dropped. Register addresses are canonical (bank zero), whichever
//! mirror was used.

use vstd::prelude::*;

use super::sa1::Processor;
use crate::text::{hex_digits, dec_digits, push_dec, push_hex, push_str};

verus! {

/// Maximum distinct accesses retained per bus. Counts keep accumulating;
/// additional distinct accesses contribute to `omitted` without allocating.
pub const MAX_ACCESSES: usize = 32;

#[derive(Clone, Copy, PartialEq, Eq, Debug, Structural)]
pub enum AccessKind {
    Read,
    Write,
}

#[derive(Clone, Copy, PartialEq, Eq, Debug, Structural)]
pub struct Access {
    pub processor: Processor,
    pub address: u32,
    pub kind: AccessKind,
    pub count: u64,
}

#[derive(Clone, PartialEq, Eq, Debug)]
pub struct UnsupportedAccesses {
    /// First-seen order, deterministic for a given execution.
    pub accesses: Vec<Access>,
    pub omitted: u64,
}

impl Default for UnsupportedAccesses {
    fn default() -> (r: Self)
        ensures
            r.accesses@ == Seq::<Access>::empty(),
            r.omitted == 0,
    {
        UnsupportedAccesses { accesses: Vec::new(), omitted: 0 }
    }
}

/// Whether `a` is an access by `processor` of `kind` to `address`.
pub open spec fn is_access_to(a: Access, processor: Processor, address: u32, kind: AccessKind) -> bool {
    a.processor == processor && a.address == address && a.kind == kind
}

/// `n + 1`, staying at the largest `u64`.
pub open spec fn saturating_inc(n: u64) -> u64 {
    if n == u64::MAX {
        n
    } else {
        (n + 1) as u64
    }
}

/// `a + b`, staying at the largest `u64`.
pub open spec fn saturating_sum(a: u64, b: u64) -> u64 {
    if a + b > u64::MAX {
        u64::MAX
    } else {
        (a + b) as u64
    }
}

/// From `j` on, where the run of addresses starting at `i` ends: the
/// first access that is not the next address reached the same way.
pub open spec fn run_end(s: Seq<Access>, i: int, j: int) -> int
    decreases s.len() - j,
{
    if 0 < j < s.len() && s[j].processor == s[i].processor && s[j].kind == s[i].kind
        && s[j].address == s[j - 1].address + 1 {
        run_end(s, i, j + 1)
    } else {
        j
    }
}

/// The counts of the accesses from `i` up to `j`, added up.
pub open spec fn run_count(s: Seq<Access>, i: int, j: int) -> u64
    decreases j - i,
{
    if j <= i + 1 {
        s[i].count
    } else {
        saturating_sum(run_count(s, i, j - 1), s[j - 1].count)
    }
}

/// The name of a processor in a report.
pub open spec fn processor_name(p: Processor) -> Seq<char> {
    match p {
        Processor::Main => "S-CPU"@,
        Processor::Sa1 => "SA-1"@,
    }
}

/// The name of a kind of access in a report.
pub open spec fn kind_name(k: AccessKind) -> Seq<char> {
    match k {
        AccessKind::Read => "read"@,
        AccessKind::Write => "write"@,
    }
}

/// How many times, in words.
pub open spec fn times_text(count: u64) -> Seq<char> {
    if count == 1 {
        " (once)"@
    } else {
        " ("@ + dec_digits(count as nat) + " times)"@
    }
}

/// One run of accesses, as a report lists it: the processor, the kind,
/// the first address and the last if there are several, and the count.
pub open spec fn run_text_of(first: Access, end: u32, count: u64) -> Seq<char> {
    processor_name(first.processor) + " "@ + kind_name(first.kind) + " $"@ + hex_digits(
        first.address as nat,
        6,
    ) + (if end != first.address {
        "-$"@ + hex_digits(end as nat, 6)
    } else {
        Seq::empty()
    }) + times_text(count)
}

/// The run of `s` from `i` up to `j`, as a report lists it.
pub open spec fn run_text(s: Seq<Access>, i: int, j: int) -> Seq<char> {
    run_text_of(s[i], s[j - 1].address, run_count(s, i, j))
}

/// The runs from `i` on, separated by commas.
pub open spec fn runs_text(s: Seq<Access>, i: int) -> Seq<char>
    decreases s.len() - i,
{
    if i < 0 || i >= s.len() {
        Seq::empty()
    } else {
        let j = run_end(s, i, i + 1);
        if j <= i || j > s.len() {
            Seq::empty()
        } else {
            (if i > 0 {
                ", "@
            } else {
                Seq::empty()
            }) + run_text(s, i, j) + runs_text(s, j)
        }
    }
}

proof fn lemma_run_end_bounds(s: Seq<Access>, i: int, j: int)
    requires
        0 <= i < j <= s.len(),
    ensures
        j <= run_end(s, i, j) <= s.len(),
    decreases s.len() - j,
{
    if 0 < j < s.len() && s[j].processor == s[i].processor && s[j].kind == s[i].kind
        && s[j].address == s[j - 1].address + 1 {
        lemma_run_end_bounds(s, i, j + 1);
    }
}

impl UnsupportedAccesses {
    pub fn is_empty(&self) -> (r: bool)
        ensures
            r == (self.accesses@.len() == 0 && self.omitted == 0),
    {
        self.accesses.len() == 0 && self.omitted == 0
    }

    /// Counts one access: another of an access already listed, a new one
    /// at the end while there is room, or else one more omitted.
    pub fn record(&mut self, processor: Processor, address: u32, kind: AccessKind)
        ensures
            forall|j: int|
                0 <= j < old(self).accesses@.len() && is_access_to(
                    old(self).accesses@[j],
                    processor,
                    address,
                    kind,
                ) && (forall|i: int|
                    0 <= i < j ==> !is_access_to(
                        #[trigger] old(self).accesses@[i],
                        processor,
                        address,
                        kind,
                    )) ==> final(self).accesses@ == old(self).accesses@.update(
                    j,
                    (Access {
                        count: saturating_inc(old(self).accesses@[j].count),
                        ..old(self).accesses@[j]
                    }),
                ) && final(self).omitted == old(self).omitted,
            (forall|i: int|
                0 <= i < old(self).accesses@.len() ==> !is_access_to(
                    #[trigger] old(self).accesses@[i],
                    processor,
                    address,
                    kind,
                )) ==> if old(self).accesses@.len() < MAX_ACCESSES {
                final(self).accesses@ == old(self).accesses@.push(
                    (Access { processor, address, kind, count: 1 }),
                ) && final(self).omitted == old(self).omitted
            } else {
                final(self).accesses@ == old(self).accesses@ && final(self).omitted
                    == saturating_inc(old(self).omitted)
            },
    {
        let mut j: usize = 0;
        while j < self.accesses.len()
            invariant
                j <= self.accesses@.len(),
                self.accesses@ == old(self).accesses@,
                self.omitted == old(self).omitted,
                forall|i: int|
                    0 <= i < j ==> !is_access_to(#[trigger] self.accesses@[i], processor, address, kind),
            decreases self.accesses@.len() - j,
        {
            let a = self.accesses[j];
            if a.processor == processor && a.address == address && a.kind == kind {
                let count = a.count.saturating_add(1);
                self.accesses.set(j, Access { count, ..a });
                return;
            }
            j = j + 1;
        }
        if self.accesses.len() < MAX_ACCESSES {
            self.accesses.push(Access { processor, address, kind, count: 1 });
        } else {
            self.omitted = self.omitted.saturating_add(1);
        }
    }

    /// The report as a sentence: the runs of consecutive addresses
    /// reached the same way, each with its count, and how many further
    /// accesses were omitted.
    pub open spec fn text(&self) -> Seq<char> {
        "unmodelled hardware accesses, so the picture may be incomplete: "@ + runs_text(
            self.accesses@,
            0,
        ) + if self.omitted > 0 {
            "; "@ + dec_digits(self.omitted as nat) + " further accesses omitted"@
        } else {
            Seq::empty()
        }
    }

    /// The run starting at `i`: where it ends, its last address, and its
    /// count.
    fn run_from(&self, i: usize) -> (r: (usize, u32, u64))
        requires
            i < self.accesses@.len(),
        ensures
            r.0 == run_end(self.accesses@, i as int, i + 1),
            i < r.0 <= self.accesses@.len(),
            r.1 == self.accesses@[r.0 - 1].address,
            r.2 == run_count(self.accesses@, i as int, r.0 as int),
    {
        let n = self.accesses.len();
        let ghost acc = self.accesses@;
        let access = self.accesses[i];
        let mut end = access.address;
        let mut count = access.count;
        let mut j = i + 1;
        // Consecutive addresses reached the same way, as a block copy or a
        // probe leaves them, are one range.
        while j < n && self.accesses[j].processor == access.processor && self.accesses[j].kind
            == access.kind && end < u32::MAX && self.accesses[j].address == end + 1
            invariant
                i < j <= n,
                n == acc.len(),
                acc == self.accesses@,
                access == acc[i as int],
                end == acc[j - 1].address,
                count == run_count(acc, i as int, j as int),
                run_end(acc, i as int, i + 1) == run_end(acc, i as int, j as int),
            decreases n - j,
        {
            end = self.accesses[j].address;
            count = count.saturating_add(self.accesses[j].count);
            j = j + 1;
        }
        proof {
            lemma_run_end_bounds(acc, i as int, j as int);
        }
        (j, end, count)
    }

    pub fn to_string(&self) -> (r: String)
        ensures
            r@ == self.text(),
    {
        let mut s = String::new();
        push_str(&mut s, "unmodelled hardware accesses, so the picture may be incomplete: ");
        let ghost start = s@;
        let n = self.accesses.len();
        let ghost acc = self.accesses@;
        let mut i: usize = 0;
        while i < n
            invariant
                i <= n,
                n == acc.len(),
                acc == self.accesses@,
                s@ + runs_text(acc, i as int) == start + runs_text(acc, 0),
            decreases n - i,
        {
            let (j, end, count) = self.run_from(i);
            let ghost before = s@;
            if i > 0 {
                push_str(&mut s, ", ");
            }
            push_run(&mut s, self.accesses[i], end, count);
            proof {
                let sep: Seq<char> = if i > 0 {
                    ", "@
                } else {
                    Seq::empty()
                };
                assert(s@ =~= before + sep + run_text(acc, i as int, j as int));
                assert(runs_text(acc, i as int) == sep + run_text(acc, i as int, j as int)
                    + runs_text(acc, j as int));
            }
            i = j;
        }
        if self.omitted > 0 {
            push_str(&mut s, "; ");
            push_dec(&mut s, self.omitted);
            push_str(&mut s, " further accesses omitted");
        }
        s
    }
}

/// Appends one run as a report lists it.
fn push_run(s: &mut String, first: Access, end: u32, count: u64)
    ensures
        final(s)@ == old(s)@ + run_text_of(first, end, count),
{
    push_names(s, first);
    let ghost named = s@;
    push_hex(s, first.address as u64, 6);
    let ghost addressed = s@;
    if end != first.address {
        push_str(s, "-$");
        push_hex(s, end as u64, 6);
    }
    let ghost ranged = s@;
    push_times(s, count);
    proof {
        let range: Seq<char> = if end != first.address {
            "-$"@ + hex_digits(end as nat, 6)
        } else {
            Seq::empty()
        };
        assert(ranged =~= addressed + range);
        assert(s@ =~= old(s)@ + run_text_of(first, end, count));
    }
}

/// Appends the processor, the kind of access, and the `$` of the address.
fn push_names(s: &mut String, first: Access)
    ensures
        final(s)@ == old(s)@ + processor_name(first.processor) + " "@ + kind_name(first.kind)
            + " $"@,
{
    if first.processor == Processor::Main {
        push_str(s, "S-CPU");
    } else {
        push_str(s, "SA-1");
    }
    push_str(s, " ");
    if first.kind == AccessKind::Read {
        push_str(s, "read");
    } else {
        push_str(s, "write");
    }
    push_str(s, " $");
}

/// Appends how many times.
fn push_times(s: &mut String, count: u64)
    ensures
        final(s)@ == old(s)@ + times_text(count),
{
    if count == 1 {
        push_str(s, " (once)");
    } else {
        push_str(s, " (");
        push_dec(s, count);
        push_str(s, " times)");
    }
}

} // verus!
