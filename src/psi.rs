//! The format of the pressure-stall files (`/proc/pressure/*`,
//! `<cgroup>/*.pressure`).
use vstd::prelude::*;
use crate::metrics::{Psi, PsiScope};
use crate::procfs::{slice_from, u64_of};
use crate::text::{all_digits, digits_value, is_digit, parse_u64, split, split_at_byte, split_words, views, words};

verus! {

/// `tok` starts with `p`.
pub open spec fn has_prefix(tok: Seq<u8>, p: Seq<u8>) -> bool {
    tok.len() >= p.len() && tok.take(p.len() as int) == p
}

pub open spec fn avg10_key() -> Seq<u8> {
    seq![97u8, 118, 103, 49, 48, 61]
}

pub open spec fn avg60_key() -> Seq<u8> {
    seq![97u8, 118, 103, 54, 48, 61]
}

pub open spec fn avg300_key() -> Seq<u8> {
    seq![97u8, 118, 103, 51, 48, 48, 61]
}

pub open spec fn total_key() -> Seq<u8> {
    seq![116u8, 111, 116, 97, 108, 61]
}

pub open spec fn some_word() -> Seq<u8> {
    seq![115u8, 111, 109, 101]
}

pub open spec fn full_word() -> Seq<u8> {
    seq![102u8, 117, 108, 108]
}

/// A percentage with up to two decimals kept (`"1.23"` is 123, `"4"` is
/// 400, `"0.456"` is 45), in hundredths.
pub open spec fn centi_of(s: Seq<u8>) -> Option<u32> {
    let dot = if exists|k: int| 0 <= k < s.len() && s[k] == 46 {
        choose|k: int| 0 <= k < s.len() && s[k] == 46 && forall|j: int| 0 <= j < k ==> s[j] != 46
    } else {
        s.len() as int
    };
    let int_part = s.take(dot);
    let frac = if dot < s.len() { s.subrange(dot + 1, s.len() as int) } else { Seq::empty() };
    if all_digits(int_part) && (frac.len() == 0 || all_digits(frac)) {
        let f1: int = if frac.len() >= 1 { frac[0] - 48 } else { 0 };
        let f2: int = if frac.len() >= 2 { frac[1] - 48 } else { 0 };
        let v = digits_value(int_part) * 100 + f1 * 10 + f2;
        if v <= u32::MAX { Some(v as u32) } else { None }
    } else {
        None
    }
}

/// The four values of a `some` or `full` line: `(avg10, avg60, avg300, total)`.
pub type PsiLine = (u32, u32, u32, u64);

pub open spec fn or_zero_u32(v: Option<u32>) -> u32 {
    match v {
        Some(x) => x,
        None => 0,
    }
}

pub open spec fn or_zero_u64(v: Option<u64>) -> u64 {
    match v {
        Some(x) => x,
        None => 0,
    }
}

/// The values of a line's first `n` fields after the kind; a field of a
/// known key that does not parse counts as 0, a later field overrides an
/// earlier one.
pub open spec fn line_values(w: Seq<Seq<u8>>, n: int) -> PsiLine
    decreases n,
{
    if n <= 1 {
        (0, 0, 0, 0)
    } else {
        let (a10, a60, a300, t) = line_values(w, n - 1);
        let tok = w[n - 1];
        if has_prefix(tok, avg10_key()) {
            (or_zero_u32(centi_of(tok.subrange(6, tok.len() as int))), a60, a300, t)
        } else if has_prefix(tok, avg60_key()) {
            (a10, or_zero_u32(centi_of(tok.subrange(6, tok.len() as int))), a300, t)
        } else if has_prefix(tok, avg300_key()) {
            (a10, a60, or_zero_u32(centi_of(tok.subrange(7, tok.len() as int))), t)
        } else if has_prefix(tok, total_key()) {
            (a10, a60, a300, or_zero_u64(u64_of(tok.subrange(6, tok.len() as int))))
        } else {
            (a10, a60, a300, t)
        }
    }
}

/// The record after the first `n` lines; a later `some` or `full` line
/// overrides an earlier one, other lines are ignored.
pub open spec fn psi_upto(lines: Seq<Seq<u8>>, n: int, scope: PsiScope) -> Psi
    decreases n,
{
    if n <= 0 {
        Psi {
            some_avg10: 0,
            some_avg60: 0,
            some_avg300: 0,
            some_total_us: 0,
            full_avg10: 0,
            full_avg60: 0,
            full_avg300: 0,
            full_total_us: 0,
            scope,
        }
    } else {
        let p = psi_upto(lines, n - 1, scope);
        let w = words(lines[n - 1]);
        if w.len() == 0 {
            p
        } else {
            let (a10, a60, a300, t) = line_values(w, w.len() as int);
            if w[0] == some_word() {
                Psi { some_avg10: a10, some_avg60: a60, some_avg300: a300, some_total_us: t, ..p }
            } else if w[0] == full_word() {
                Psi { full_avg10: a10, full_avg60: a60, full_avg300: a300, full_total_us: t, ..p }
            } else {
                p
            }
        }
    }
}

fn has_prefix_exec(tok: &[u8], p: &[u8]) -> (r: bool)
    ensures
        r == has_prefix(tok@, p@),
{
    if tok.len() < p.len() {
        return false;
    }
    let mut i: usize = 0;
    while i < p.len()
        invariant
            i <= p@.len() <= tok@.len(),
            tok@.take(i as int) == p@.take(i as int),
        decreases p@.len() - i,
    {
        if tok[i] != p[i] {
            assert(tok@.take(p@.len() as int)[i as int] != p@[i as int]);
            return false;
        }
        i += 1;
        assert(tok@.take(i as int) =~= p@.take(i as int));
    }
    assert(p@.take(p@.len() as int) =~= p@);
    true
}

fn digits_only(v: &[u8]) -> (r: bool)
    ensures
        r == (forall|j: int| 0 <= j < v@.len() ==> is_digit(#[trigger] v@[j])),
{
    let mut k: usize = 0;
    while k < v.len()
        invariant
            k <= v@.len(),
            forall|j: int| 0 <= j < k ==> is_digit(#[trigger] v@[j]),
        decreases v@.len() - k,
    {
        if !(48 <= v[k] && v[k] <= 57) {
            return false;
        }
        k += 1;
    }
    true
}

fn centi_exec(s: &[u8]) -> (r: Option<u32>)
    ensures
        r == centi_of(s@),
{
    let n = s.len();
    let mut dot: usize = 0;
    while dot < n && s[dot] != 46
        invariant
            dot <= n == s@.len(),
            forall|j: int| 0 <= j < dot ==> s@[j] != 46,
        decreases n - dot,
    {
        dot += 1;
    }
    proof {
        if exists|k: int| 0 <= k < s@.len() && s@[k] == 46 {
            let k = choose|k: int| 0 <= k < s@.len() && s@[k] == 46 && forall|j: int| 0 <= j < k ==> s@[j] != 46;
            assert(dot < n);
            if k < dot {
            } else if k > dot {
                assert(s@[dot as int] == 46);
            }
            assert(k == dot);
        } else {
            if dot < n {
                assert(s@[dot as int] == 46);
            }
        }
    }
    let int_part = crate::procfs::slice_to(s, dot);
    let frac = if dot < n { slice_from(s, dot + 1) } else { Vec::new() };
    let iv = match parse_u64(int_part.as_slice()) {
        Some(v) => v,
        None => {
            proof {
                if all_digits(int_part@) {
                    assert(digits_value(int_part@) > u64::MAX);
                }
            }
            return None;
        },
    };
    if !digits_only(frac.as_slice()) {
        proof {
            if frac@.len() > 0 {
                assert(!all_digits(frac@));
            }
        }
        return None;
    }
    let f1: u64 = if frac.len() >= 1 { (frac[0] - 48) as u64 } else { 0 };
    let f2: u64 = if frac.len() >= 2 { (frac[1] - 48) as u64 } else { 0 };
    if iv > 42949672 {
        proof {
            if frac@.len() >= 1 {
                assert(is_digit(frac@[0]));
            }
            if frac@.len() >= 2 {
                assert(is_digit(frac@[1]));
            }
            assert(frac@ == (if dot < n { s@.subrange(dot as int + 1, n as int) } else { Seq::<u8>::empty() }));
        }
        return None;
    }
    let v = iv * 100 + f1 * 10 + f2;
    if v > u32::MAX as u64 {
        return None;
    }
    Some(v as u32)
}

fn line_values_exec(w: &Vec<Vec<u8>>) -> (r: PsiLine)
    ensures
        r == line_values(views(w@), w@.len() as int),
{
    let ghost ws = views(w@);
    let k10: [u8; 6] = [97, 118, 103, 49, 48, 61];
    let k60: [u8; 6] = [97, 118, 103, 54, 48, 61];
    let k300: [u8; 7] = [97, 118, 103, 51, 48, 48, 61];
    let ktot: [u8; 6] = [116, 111, 116, 97, 108, 61];
    assert(k10@ =~= avg10_key());
    assert(k60@ =~= avg60_key());
    assert(k300@ =~= avg300_key());
    assert(ktot@ =~= total_key());
    let mut acc: PsiLine = (0, 0, 0, 0);
    let mut i: usize = 1;
    if w.len() == 0 {
        return acc;
    }
    while i < w.len()
        invariant
            1 <= i <= w@.len(),
            ws == views(w@),
            k10@ == avg10_key(),
            k60@ == avg60_key(),
            k300@ == avg300_key(),
            ktot@ == total_key(),
            acc == line_values(ws, i as int),
        decreases w@.len() - i,
    {
        let tok = w[i].as_slice();
        assert(ws[i as int] == tok@);
        if has_prefix_exec(tok, k10.as_slice()) {
            acc.0 = match centi_exec(slice_from(tok, 6).as_slice()) {
                Some(v) => v,
                None => 0,
            };
        } else if has_prefix_exec(tok, k60.as_slice()) {
            acc.1 = match centi_exec(slice_from(tok, 6).as_slice()) {
                Some(v) => v,
                None => 0,
            };
        } else if has_prefix_exec(tok, k300.as_slice()) {
            acc.2 = match centi_exec(slice_from(tok, 7).as_slice()) {
                Some(v) => v,
                None => 0,
            };
        } else if has_prefix_exec(tok, ktot.as_slice()) {
            acc.3 = match parse_u64(slice_from(tok, 6).as_slice()) {
                Some(v) => v,
                None => 0,
            };
        }
        i += 1;
    }
    acc
}

/// Parses a pressure-stall file: the `some` and `full` lines' 10, 60 and
/// 300-second averages (hundredths of a percent) and totals (µs).
pub fn parse_psi(text: &[u8], scope: PsiScope) -> (r: Psi)
    ensures
        r == psi_upto(split(text@, 10), split(text@, 10).len() as int, scope),
{
    let lines = split_at_byte(text, 10);
    let ghost ls = split(text@, 10);
    let some: [u8; 4] = [115, 111, 109, 101];
    let full: [u8; 4] = [102, 117, 108, 108];
    assert(some@ =~= some_word());
    assert(full@ =~= full_word());
    let mut p = Psi {
        some_avg10: 0,
        some_avg60: 0,
        some_avg300: 0,
        some_total_us: 0,
        full_avg10: 0,
        full_avg60: 0,
        full_avg300: 0,
        full_total_us: 0,
        scope,
    };
    let mut i: usize = 0;
    while i < lines.len()
        invariant
            ls == views(lines@),
            ls == split(text@, 10),
            some@ == some_word(),
            full@ == full_word(),
            i <= lines@.len(),
            p == psi_upto(ls, i as int, scope),
        decreases lines@.len() - i,
    {
        assert(ls[i as int] == lines@[i as int]@);
        let w = split_words(lines[i].as_slice());
        if w.len() > 0 {
            let vals = line_values_exec(&w);
            let first = w[0].as_slice();
            assert(views(w@)[0] == first@);
            let is_some = first.len() == 4 && has_prefix_exec(first, some.as_slice());
            let is_full = first.len() == 4 && has_prefix_exec(first, full.as_slice());
            proof {
                if first@.len() == 4 {
                    assert(first@.take(4) =~= first@);
                }
            }
            if is_some {
                p = Psi { some_avg10: vals.0, some_avg60: vals.1, some_avg300: vals.2, some_total_us: vals.3, ..p };
            } else if is_full {
                p = Psi { full_avg10: vals.0, full_avg60: vals.1, full_avg300: vals.2, full_total_us: vals.3, ..p };
            }
        }
        i += 1;
    }
    p
}

/// The 10-second `some` averages of the cpu, io and memory pressure files,
/// in hundredths of a percent.
#[derive(Debug, Clone, Copy, Default)]
pub struct PsiSnap {
    pub cpu_some: u32,
    pub io_some: u32,
    pub mem_some: u32,
}

pub open spec fn some10_of_text(t: Option<Seq<u8>>) -> u32 {
    match t {
        Some(t) => psi_upto(split(t, 10), split(t, 10).len() as int, PsiScope::System).some_avg10,
        None => 0,
    }
}

fn some10_exec(t: Option<&[u8]>) -> (r: u32)
    ensures
        r == some10_of_text(
            match t {
                Some(b) => Some(b@),
                None => None,
            },
        ),
{
    match t {
        Some(b) => parse_psi(b, PsiScope::System).some_avg10,
        None => 0,
    }
}

impl PsiSnap {
    /// Reads the three files' contents (`None` for a file that is absent);
    /// everything is zero when the cpu file is absent.
    pub fn read_all(cpu: Option<&[u8]>, io: Option<&[u8]>, mem: Option<&[u8]>) -> (r: PsiSnap)
        ensures
            cpu is None ==> r.cpu_some == 0 && r.io_some == 0 && r.mem_some == 0,
            cpu is Some ==> {
                &&& r.cpu_some == some10_of_text(Some(cpu->0@))
                &&& r.io_some == some10_of_text(
                    match io {
                        Some(b) => Some(b@),
                        None => None,
                    },
                )
                &&& r.mem_some == some10_of_text(
                    match mem {
                        Some(b) => Some(b@),
                        None => None,
                    },
                )
            },
    {
        if cpu.is_none() {
            return PsiSnap { cpu_some: 0, io_some: 0, mem_some: 0 };
        }
        PsiSnap { cpu_some: some10_exec(cpu), io_some: some10_exec(io), mem_some: some10_exec(mem) }
    }
}

} // verus!
