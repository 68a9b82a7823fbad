//! What a capture gave up on without failing the level.

use vstd::prelude::*;

use crate::cpu::CpuError;
use crate::text::{dec_digits, hex_digits, push_dec, push_hex, push_str};

verus! {

/// The pass of a capture that the CPU core could not finish. A crashing
/// custom sprite, or per-level code that is broken whatever runs it,
/// costs that pass its picture and nothing else.
#[derive(Clone, Copy, PartialEq, Eq, Debug)]
pub enum Pass {
    /// The player's entrance frames; the level goes without a player.
    Player,
    /// The ROM's sprite loader, called with the camera here. The column's
    /// sprites become markers.
    SpriteLoader { camera: (i32, i32) },
    /// The drawing pass of sprite `id`, from the entry at this tile.
    Sprite { id: u8, x: i32, y: i32 },
    /// The shared pass of the entries that took no sprite slot, from the
    /// loader's camera.
    Slotless { camera: (i32, i32) },
}

#[derive(Clone, PartialEq, Eq, Debug)]
pub struct Diagnostic {
    pub pass: Pass,
    pub error: CpuError,
}

/// A number in decimal, with a minus sign when negative.
pub open spec fn signed_text(v: int) -> Seq<char> {
    if v < 0 {
        "-"@ + dec_digits((-v) as nat)
    } else {
        dec_digits(v as nat)
    }
}

/// `(x, y)`.
pub open spec fn pair_text(x: i32, y: i32) -> Seq<char> {
    "("@ + signed_text(x as int) + ", "@ + signed_text(y as int) + ")"@
}

/// The pass as a phrase, such as `sprite B9 at tile (1, 19)`.
pub open spec fn pass_text(pass: Pass) -> Seq<char> {
    match pass {
        Pass::Player => "player entrance"@,
        Pass::SpriteLoader { camera: (x, y) } => "sprite loader with the camera at "@ + pair_text(
            x,
            y,
        ),
        Pass::Sprite { id, x, y } => "sprite "@ + hex_digits(id as nat, 2) + " at tile "@
            + pair_text(x, y),
        Pass::Slotless { camera: (x, y) } => "slotless sprites with the camera at "@ + pair_text(
            x,
            y,
        ),
    }
}

fn push_signed(s: &mut String, v: i32)
    ensures
        final(s)@ == old(s)@ + signed_text(v as int),
{
    if v < 0 {
        push_str(s, "-");
        push_dec(s, (-(v as i64)) as u64);
    } else {
        push_dec(s, v as u64);
    }
}

fn push_pair(s: &mut String, x: i32, y: i32)
    ensures
        final(s)@ == old(s)@ + pair_text(x, y),
{
    push_str(s, "(");
    push_signed(s, x);
    push_str(s, ", ");
    push_signed(s, y);
    push_str(s, ")");
}

impl Diagnostic {
    /// The pass and what stopped it, such as `player entrance: BRK at
    /// $93:9D9F`.
    pub open spec fn text(self) -> Seq<char> {
        pass_text(self.pass) + ": "@ + self.error.text()
    }

    pub fn to_string(&self) -> (r: String)
        ensures
            r@ == self.text(),
    {
        let mut s = String::new();
        match self.pass {
            Pass::Player => push_str(&mut s, "player entrance"),
            Pass::SpriteLoader { camera: (x, y) } => {
                push_str(&mut s, "sprite loader with the camera at ");
                push_pair(&mut s, x, y);
            },
            Pass::Sprite { id, x, y } => {
                push_str(&mut s, "sprite ");
                push_hex(&mut s, id as u64, 2);
                push_str(&mut s, " at tile ");
                push_pair(&mut s, x, y);
            },
            Pass::Slotless { camera: (x, y) } => {
                push_str(&mut s, "slotless sprites with the camera at ");
                push_pair(&mut s, x, y);
            },
        }
        push_str(&mut s, ": ");
        let error = self.error.to_string();
        push_str(&mut s, error.as_str());
        s
    }
}

/// The two errors are the same.
pub fn same_error(a: &CpuError, b: &CpuError) -> (r: bool)
    ensures
        r == (*a == *b),
    decreases a,
{
    match (a, b) {
        (
            CpuError::Unsupported { opcode: o1, pb: b1, pc: c1 },
            CpuError::Unsupported { opcode: o2, pb: b2, pc: c2 },
        ) => o1 == o2 && b1 == b2 && c1 == c2,
        (CpuError::Brk { pb: b1, pc: c1 }, CpuError::Brk { pb: b2, pc: c2 }) => b1 == b2 && c1
            == c2,
        (CpuError::Cop { pb: b1, pc: c1 }, CpuError::Cop { pb: b2, pc: c2 }) => b1 == b2 && c1
            == c2,
        (CpuError::Halted { pb: b1, pc: c1 }, CpuError::Halted { pb: b2, pc: c2 }) => b1 == b2
            && c1 == c2,
        (CpuError::Waiting { pb: b1, pc: c1 }, CpuError::Waiting { pb: b2, pc: c2 }) => b1 == b2
            && c1 == c2,
        (CpuError::Sa1(i1), CpuError::Sa1(i2)) => same_error(&**i1, &**i2),
        (
            CpuError::Limit { limit: l1, pb: b1, pc: c1 },
            CpuError::Limit { limit: l2, pb: b2, pc: c2 },
        ) => l1 == l2 && b1 == b2 && c1 == c2,
        _ => false,
    }
}

/// No diagnostic before the `i`th has its error.
pub open spec fn first_of_its_error(ds: Seq<Diagnostic>, i: int) -> bool {
    forall|j: int| 0 <= j < i ==> #[trigger] ds[j].error != ds[i].error
}

/// How many of the first `n` diagnostics have error `e`.
pub open spec fn count_error(ds: Seq<Diagnostic>, e: CpuError, n: int) -> nat
    decreases n,
{
    if n <= 0 {
        0
    } else {
        count_error(ds, e, n - 1) + if ds[n - 1].error == e {
            1nat
        } else {
            0nat
        }
    }
}

/// One entry per distinct error among the first `n` diagnostics, in the
/// order they first came: the first diagnostic with it, and how many of
/// all the diagnostics have it.
pub open spec fn summary(ds: Seq<Diagnostic>, n: int) -> Seq<(int, nat)>
    decreases n,
{
    if n <= 0 {
        Seq::empty()
    } else if first_of_its_error(ds, n - 1) {
        summary(ds, n - 1).push((n - 1, count_error(ds, ds[n - 1].error, ds.len() as int)))
    } else {
        summary(ds, n - 1)
    }
}

/// The line an entry of the summary becomes: the first diagnostic, and
/// how many other passes the same error stopped.
pub open spec fn summary_line(d: Diagnostic, passes: nat) -> Seq<char> {
    if passes <= 1 {
        d.text()
    } else if passes == 2 {
        d.text() + " (and 1 more pass)"@
    } else {
        d.text() + " (and "@ + dec_digits((passes - 1) as nat) + " more passes)"@
    }
}

fn count_same(ds: &[Diagnostic], e: &CpuError) -> (r: usize)
    ensures
        r == count_error(ds@, *e, ds@.len() as int),
{
    let mut n: usize = 0;
    let mut i: usize = 0;
    while i < ds.len()
        invariant
            i <= ds@.len(),
            n == count_error(ds@, *e, i as int),
            n <= i,
        decreases ds@.len() - i,
    {
        if same_error(&ds[i].error, e) {
            n = n + 1;
        }
        i = i + 1;
    }
    n
}

fn seen_before(ds: &[Diagnostic], i: usize) -> (r: bool)
    requires
        i < ds@.len(),
    ensures
        r == !first_of_its_error(ds@, i as int),
{
    let mut j: usize = 0;
    while j < i
        invariant
            j <= i < ds@.len(),
            forall|k: int| 0 <= k < j ==> #[trigger] ds@[k].error != ds@[i as int].error,
        decreases i - j,
    {
        if same_error(&ds[j].error, &ds[i].error) {
            return true;
        }
        j = j + 1;
    }
    false
}

/// One line per distinct error, naming the first pass it stopped and how
/// many others: broken per-level code fails every pass the same way.
pub fn summarize(diagnostics: &[Diagnostic]) -> (lines: Vec<String>)
    ensures
        lines@.len() == summary(diagnostics@, diagnostics@.len() as int).len(),
        forall|k: int|
            0 <= k < lines@.len() ==> #[trigger] lines@[k]@ == {
                let (first, passes) = summary(diagnostics@, diagnostics@.len() as int)[k];
                summary_line(diagnostics@[first], passes)
            },
{
    let ghost ds = diagnostics@;
    let mut lines: Vec<String> = Vec::new();
    let mut i: usize = 0;
    while i < diagnostics.len()
        invariant
            i <= ds.len(),
            ds == diagnostics@,
            lines@.len() == summary(ds, i as int).len(),
            forall|k: int|
                0 <= k < lines@.len() ==> #[trigger] lines@[k]@ == {
                    let (first, passes) = summary(ds, i as int)[k];
                    summary_line(ds[first], passes)
                },
            forall|k: int|
                0 <= k < summary(ds, i as int).len() ==> 0 <= #[trigger] summary(ds, i as int)[k].0
                    < i,
        decreases ds.len() - i,
    {
        if !seen_before(diagnostics, i) {
            let d = &diagnostics[i];
            let passes = count_same(diagnostics, &d.error);
            let mut line = d.to_string();
            if passes == 2 {
                push_str(&mut line, " (and 1 more pass)");
            } else if passes > 2 {
                push_str(&mut line, " (and ");
                push_dec(&mut line, (passes - 1) as u64);
                push_str(&mut line, " more passes)");
            }
            lines.push(line);
        }
        i = i + 1;
    }
    lines
}

} // verus!
