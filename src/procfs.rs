//! The formats of the `/proc` files the agent reads.
use vstd::prelude::*;
use crate::text::{all_digits, decimal_of, digits_value, is_space, parse_u64, split, split_at_byte, split_words, views, words};

verus! {

pub open spec fn u64_of(s: Seq<u8>) -> Option<u64> {
    match decimal_of(s, u64::MAX as nat) {
        Some(v) => Some(v as u64),
        None => None,
    }
}

/// `schedstat`: the first two fields, time on the CPU and time waiting on a
/// run queue (ns).
pub open spec fn schedstat_of(t: Seq<u8>) -> Option<(u64, u64)> {
    let w = words(t);
    if w.len() >= 2 {
        match (u64_of(w[0]), u64_of(w[1])) {
            (Some(a), Some(b)) => Some((a, b)),
            _ => None,
        }
    } else {
        None
    }
}

/// `stat`: field 10 (minor faults) of a line of more than 11 fields.
pub open spec fn minflt_of(t: Seq<u8>) -> Option<u64> {
    let w = words(t);
    if w.len() > 11 { u64_of(w[9]) } else { None }
}

pub fn schedstat_pair(text: &[u8]) -> (r: Option<(u64, u64)>)
    ensures
        r == schedstat_of(text@),
{
    let w = split_words(text);
    if w.len() < 2 {
        return None;
    }
    let a = parse_u64(w[0].as_slice());
    let b = parse_u64(w[1].as_slice());
    match (a, b) {
        (Some(a), Some(b)) => Some((a, b)),
        _ => None,
    }
}

pub fn stat_minflt(text: &[u8]) -> (r: Option<u64>)
    ensures
        r == minflt_of(text@),
{
    let w = split_words(text);
    if w.len() > 11 {
        parse_u64(w[9].as_slice())
    } else {
        None
    }
}

/// The pid a line of `cgroup.procs` names: one decimal number, surrounded by
/// whitespace at most.
pub open spec fn pid_of_line(line: Seq<u8>) -> Option<i32> {
    let w = words(line);
    if w.len() == 1 {
        match decimal_of(w[0], i32::MAX as nat) {
            Some(v) => Some(v as i32),
            None => None,
        }
    } else {
        None
    }
}

/// The pids of the first `n` lines.
pub open spec fn pids_upto(lines: Seq<Seq<u8>>, n: int) -> Seq<i32>
    decreases n,
{
    if n <= 0 {
        Seq::empty()
    } else {
        pids_upto(lines, n - 1) + match pid_of_line(lines[n - 1]) {
            Some(p) => seq![p],
            None => Seq::empty(),
        }
    }
}

/// The pids listed in `cgroup.procs`, in order; other lines are skipped.
pub fn parse_pids(text: &[u8]) -> (r: Vec<i32>)
    ensures
        r@ == pids_upto(split(text@, 10), split(text@, 10).len() as int),
{
    let lines = split_at_byte(text, 10);
    let ghost ls = split(text@, 10);
    let mut out: Vec<i32> = Vec::new();
    let mut i: usize = 0;
    while i < lines.len()
        invariant
            ls == views(lines@),
            i <= lines@.len(),
            out@ == pids_upto(ls, i as int),
        decreases lines@.len() - i,
    {
        let w = split_words(lines[i].as_slice());
        assert(ls[i as int] == lines@[i as int]@);
        if w.len() == 1 {
            match parse_u64(w[0].as_slice()) {
                Some(v) => {
                    if v <= i32::MAX as u64 {
                        out.push(v as i32);
                    }
                },
                None => {},
            }
        }
        i += 1;
        assert(out@ =~= pids_upto(ls, i as int));
    }
    out
}

/// Index of the first `c` in `s` at or after `from`.
pub open spec fn find_from(s: Seq<u8>, c: u8, from: int) -> Option<int>
    decreases s.len() - from,
{
    if from < 0 || from >= s.len() {
        None
    } else if s[from] == c {
        Some(from)
    } else {
        find_from(s, c, from + 1)
    }
}

/// What follows the second `:` of a line of `/proc/<pid>/cgroup`.
pub open spec fn cgroup_field(line: Seq<u8>) -> Option<Seq<u8>> {
    match find_from(line, 58, 0) {
        Some(a) => match find_from(line, 58, a + 1) {
            Some(b) => Some(line.subrange(b + 1, line.len() as int)),
            None => None,
        },
        None => None,
    }
}

/// `s` without leading and trailing whitespace.
pub open spec fn trim(s: Seq<u8>) -> Seq<u8>
    decreases s.len(),
{
    if s.len() > 0 && is_space(s[0]) {
        trim(s.drop_first())
    } else if s.len() > 0 && is_space(s.last()) {
        trim(s.drop_last())
    } else {
        s
    }
}

pub open spec fn cgroup_root() -> Seq<u8> {
    seq![47u8, 115, 121, 115, 47, 102, 115, 47, 99, 103, 114, 111, 117, 112]
}

/// The first line (of the first `n`) that has two colons, if any.
pub open spec fn first_cgroup_field(lines: Seq<Seq<u8>>, n: int) -> Option<Seq<u8>>
    decreases n,
{
    if n <= 0 {
        None
    } else {
        match first_cgroup_field(lines, n - 1) {
            Some(f) => Some(f),
            None => cgroup_field(lines[n - 1]),
        }
    }
}

pub fn find_byte(s: &[u8], c: u8, from: usize) -> (r: Option<usize>)
    ensures
        match find_from(s@, c, from as int) {
            Some(k) => from <= k < s@.len() && r == Some(k as usize),
            None => r is None,
        },
        match r {
            Some(k) => from <= k < s@.len(),
            None => true,
        },
    decreases s@.len() - from,
{
    if from >= s.len() {
        None
    } else if s[from] == c {
        Some(from)
    } else {
        find_byte(s, c, from + 1)
    }
}

pub fn trim_bytes(s: &[u8]) -> (r: Vec<u8>)
    ensures
        r@ == trim(s@),
{
    let mut a: usize = 0;
    let mut b: usize = s.len();
    assert(s@.subrange(0, s@.len() as int) =~= s@);
    while a < b && (s[a] == 32 || s[a] == 9 || s[a] == 10 || s[a] == 11 || s[a] == 12 || s[a] == 13)
        invariant
            a <= b == s@.len(),
            trim(s@) == trim(s@.subrange(a as int, b as int)),
        decreases b - a,
    {
        assert(s@.subrange(a as int, b as int).drop_first() =~= s@.subrange(a as int + 1, b as int));
        a += 1;
    }
    while a < b && (s[b - 1] == 32 || s[b - 1] == 9 || s[b - 1] == 10 || s[b - 1] == 11 || s[b - 1] == 12 || s[b - 1] == 13)
        invariant
            a <= b <= s@.len(),
            a < b ==> !is_space(s@[a as int]),
            trim(s@) == trim(s@.subrange(a as int, b as int)),
        decreases b - a,
    {
        assert(s@.subrange(a as int, b as int).drop_last() =~= s@.subrange(a as int, b as int - 1));
        b -= 1;
    }
    let mut r: Vec<u8> = Vec::new();
    let mut i: usize = a;
    while i < b
        invariant
            a <= i <= b <= s@.len(),
            r@ == s@.subrange(a as int, i as int),
        decreases b - i,
    {
        r.push(s[i]);
        i += 1;
        assert(r@ =~= s@.subrange(a as int, i as int));
    }
    r
}

/// The cgroup v2 directory of a process: `/sys/fs/cgroup` followed by the
/// trimmed path after the second colon of the first line that has two, or
/// `/sys/fs/cgroup` alone.
pub fn cgroup_path(text: &[u8]) -> (r: Vec<u8>)
    ensures
        r@ == cgroup_root() + match first_cgroup_field(split(text@, 10), split(text@, 10).len() as int) {
            Some(f) => trim(f),
            None => Seq::empty(),
        },
{
    let lines = split_at_byte(text, 10);
    let ghost ls = split(text@, 10);
    let mut root: Vec<u8> = Vec::new();
    root.push(47);
    root.push(115);
    root.push(121);
    root.push(115);
    root.push(47);
    root.push(102);
    root.push(115);
    root.push(47);
    root.push(99);
    root.push(103);
    root.push(114);
    root.push(111);
    root.push(117);
    root.push(112);
    assert(root@ =~= cgroup_root());
    let mut i: usize = 0;
    while i < lines.len()
        invariant
            ls == views(lines@),
            ls == split(text@, 10),
            i <= lines@.len(),
            root@ == cgroup_root(),
            first_cgroup_field(ls, i as int) is None,
        decreases lines@.len() - i,
    {
        let line = lines[i].as_slice();
        let n = line.len();
        assert(ls[i as int] == line@);
        let fa = find_byte(line, 58, 0);
        if let Some(a) = fa {
            let fb = find_byte(line, 58, a + 1);
            if fb.is_none() {
                assert(cgroup_field(line@) is None);
            }
            if let Some(b) = fb {
                let rest = slice_from(line, b + 1);
                let t = trim_bytes(rest.as_slice());
                let mut out = root;
                let mut t2 = t;
                out.append(&mut t2);
                proof {
                    assert(cgroup_field(line@) == Some(rest@));
                    assert(first_cgroup_field(ls, i as int + 1) == Some(rest@));
                    lemma_first_field_stays(ls, i as int + 1, ls.len() as int);
                    assert(out@ =~= cgroup_root() + trim(rest@));
                }
                return out;
            }
        } else {
            assert(cgroup_field(line@) is None);
        }
        assert(first_cgroup_field(ls, i as int + 1) is None);
        i += 1;
    }
    assert(root@ =~= cgroup_root() + Seq::<u8>::empty());
    root
}

proof fn lemma_first_field_stays(lines: Seq<Seq<u8>>, i: int, n: int)
    requires
        1 <= i <= n,
        first_cgroup_field(lines, i) is Some,
    ensures
        first_cgroup_field(lines, n) == first_cgroup_field(lines, i),
    decreases n - i,
{
    if n > i {
        lemma_first_field_stays(lines, i, n - 1);
    }
}

pub fn slice_from(s: &[u8], from: usize) -> (r: Vec<u8>)
    requires
        from <= s@.len(),
    ensures
        r@ == s@.subrange(from as int, s@.len() as int),
{
    let mut r: Vec<u8> = Vec::new();
    let mut i: usize = from;
    while i < s.len()
        invariant
            from <= i <= s@.len(),
            r@ == s@.subrange(from as int, i as int),
        decreases s@.len() - i,
    {
        r.push(s[i]);
        i += 1;
        assert(r@ =~= s@.subrange(from as int, i as int));
    }
    r
}

/// A `N<node>=<pages>` token of `numa_maps`.
pub open spec fn node_token(t: Seq<u8>) -> Option<(u32, u64)> {
    if t.len() >= 1 && t[0] == 78 {
        let rest = t.drop_first();
        match find_from(rest, 61, 0) {
            Some(k) => match (decimal_of(rest.take(k), u32::MAX as nat), u64_of(rest.subrange(k + 1, rest.len() as int))) {
                (Some(n), Some(v)) => Some((n as u32, v)),
                _ => None,
            },
            None => None,
        }
    } else {
        None
    }
}

/// Pages the first `upto` tokens give to `node`.
pub open spec fn node_pages(tokens: Seq<Seq<u8>>, node: u32, upto: int) -> int
    decreases upto,
{
    if upto <= 0 {
        0
    } else {
        node_pages(tokens, node, upto - 1) + match node_token(tokens[upto - 1]) {
            Some((n, v)) => if n == node { v as int } else { 0 },
            None => 0,
        }
    }
}

/// Token `t` names `node`.
pub open spec fn names(t: Seq<u8>, node: u32) -> bool {
    match node_token(t) {
        Some((n, _)) => n == node,
        None => false,
    }
}

/// Some token among the first `upto` names `node`.
pub open spec fn node_named(tokens: Seq<Seq<u8>>, node: u32, upto: int) -> bool {
    exists|i: int| 0 <= i < upto && #[trigger] names(tokens[i], node)
}

/// The node holding most pages; of nodes holding equally many, the highest.
pub open spec fn is_dominant(tokens: Seq<Seq<u8>>, node: u32) -> bool {
    let n = tokens.len() as int;
    &&& node_named(tokens, node, n)
    &&& forall|m: u32|
        #![trigger node_pages(tokens, m, n)]
        node_named(tokens, m, n) ==> node_pages(tokens, m, n) <= node_pages(tokens, node, n) && (m > node
            ==> node_pages(tokens, m, n) < node_pages(tokens, node, n))
}

fn node_token_exec(t: &[u8]) -> (r: Option<(u32, u64)>)
    ensures
        r == node_token(t@),
{
    if t.len() == 0 || t[0] != 78 {
        return None;
    }
    let rest = slice_from(t, 1);
    assert(rest@ =~= t@.drop_first());
    match find_byte(rest.as_slice(), 61, 0) {
        Some(k) => {
            let left = slice_to(rest.as_slice(), k);
            let right = slice_from(rest.as_slice(), k + 1);
            let n = parse_u64(left.as_slice());
            let v = parse_u64(right.as_slice());
            match (n, v) {
                (Some(n), Some(v)) => {
                    if n <= u32::MAX as u64 {
                        Some((n as u32, v))
                    } else {
                        None
                    }
                },
                _ => None,
            }
        },
        None => None,
    }
}

pub fn slice_to(s: &[u8], to: usize) -> (r: Vec<u8>)
    requires
        to <= s@.len(),
    ensures
        r@ == s@.take(to as int),
{
    let mut r: Vec<u8> = Vec::new();
    let mut i: usize = 0;
    while i < to
        invariant
            i <= to <= s@.len(),
            r@ == s@.take(i as int),
        decreases to - i,
    {
        r.push(s[i]);
        i += 1;
        assert(r@ =~= s@.take(i as int));
    }
    r
}

fn find_node(counts: &Vec<(u32, u128)>, n: u32) -> (k: usize)
    ensures
        k <= counts@.len(),
        k < counts@.len() ==> counts@[k as int].0 == n,
        forall|a: int| 0 <= a < k ==> #[trigger] counts@[a].0 != n,
{
    let mut k: usize = 0;
    while k < counts.len() && counts[k].0 != n
        invariant
            k <= counts@.len(),
            forall|a: int| 0 <= a < k ==> #[trigger] counts@[a].0 != n,
        decreases counts@.len() - k,
    {
        k += 1;
    }
    k
}

/// The node that holds most of a process's pages according to its
/// `numa_maps` (the highest such node on ties), or `None` when no token
/// names a node.
pub fn dominant_node(text: &[u8]) -> (r: Option<u32>)
    ensures
        match r {
            Some(n) => is_dominant(words(text@), n),
            None => forall|m: u32| !node_named(words(text@), m, words(text@).len() as int),
        },
{
    let toks = split_words(text);
    let ghost ts = words(text@);
    let mut counts: Vec<(u32, u128)> = Vec::new();
    let mut i: usize = 0;
    while i < toks.len()
        invariant
            ts == views(toks@),
            i <= toks@.len(),
            forall|a: int, b: int| 0 <= a < b < counts@.len() ==> #[trigger] counts@[a].0 != #[trigger] counts@[b].0,
            forall|a: int|
                0 <= a < counts@.len() ==> #[trigger] counts@[a].1 == node_pages(ts, counts@[a].0, i as int)
                    && node_named(ts, counts@[a].0, i as int),
            forall|m: u32| #[trigger] node_named(ts, m, i as int) ==> exists|a: int| 0 <= a < counts@.len() && #[trigger] counts@[a].0 == m,
            forall|m: u32| !node_named(ts, m, i as int) ==> #[trigger] node_pages(ts, m, i as int) == 0,
            forall|a: int| 0 <= a < counts@.len() ==> #[trigger] counts@[a].1 <= i * 18446744073709551615,
        decreases toks@.len() - i,
    {
        assert(ts[i as int] == toks@[i as int]@);
        let tok = node_token_exec(toks[i].as_slice());
        let ghost before = counts@;
        assert(forall|a: int| 0 <= a < before.len() ==> #[trigger] before[a].1 == node_pages(ts, before[a].0, i as int)
            && node_named(ts, before[a].0, i as int));
        assert(forall|m: u32| !node_named(ts, m, i as int) ==> #[trigger] node_pages(ts, m, i as int) == 0);
        match tok {
            Some((n, v)) => {
                let k = find_node(&counts, n);
                if k < counts.len() {
                    let c = counts[k].1;
                    counts.set(k, (n, c + v as u128));
                } else {
                    counts.push((n, v as u128));
                }
                proof {
                    assert forall|m: u32| #[trigger] node_named(ts, m, i as int + 1) implies exists|a: int| 0 <= a < counts@.len() && #[trigger] counts@[a].0 == m by {
                        if m == n {
                            assert(counts@[k as int].0 == n);
                        } else {
                            let j = choose|j: int| 0 <= j < i as int + 1 && #[trigger] names(ts[j], m);
                            assert(j < i);
                            assert(node_named(ts, m, i as int));
                            let a = choose|a: int| 0 <= a < before.len() && #[trigger] before[a].0 == m;
                            assert(counts@[a].0 == m);
                        }
                    }
                    assert(node_token(ts[i as int]) == Some((n, v)));
                    assert forall|a: int| 0 <= a < counts@.len() implies #[trigger] counts@[a].1 == node_pages(ts, counts@[a].0, i as int + 1)
                        && node_named(ts, counts@[a].0, i as int + 1) by {
                        if a < before.len() {
                            assert(before[a].1 == node_pages(ts, before[a].0, i as int));
                            assert(node_named(ts, before[a].0, i as int));
                            let m = before[a].0;
                            let j = choose|j: int| 0 <= j < i && #[trigger] names(ts[j], m);
                            assert(names(ts[j], m));
                            assert(0 <= j < i as int + 1);
                            assert(node_named(ts, m, i as int + 1));
                            assert(node_pages(ts, m, i as int + 1) == node_pages(ts, m, i as int) + if m == n { v as int } else { 0 });
                            if a != k {
                                assert(counts@[a] == before[a]);
                                assert(m != n);
                            } else {
                                assert(counts@[a] == (n, (before[a].1 + v) as u128));
                            }
                        } else {
                            assert(names(ts[i as int], n));
                            assert(!node_named(ts, n, i as int));
                            assert(node_pages(ts, n, i as int) == 0);
                            assert(counts@[a] == (n, v as u128));
                            assert(node_pages(ts, n, i as int + 1) == node_pages(ts, n, i as int) + v);
                            assert(node_named(ts, n, i as int + 1));
                        }
                    }
                    assert forall|a: int, b: int| 0 <= a < b < counts@.len() implies #[trigger] counts@[a].0 != #[trigger] counts@[b].0 by {
                        if b == before.len() {
                            assert(before[a].0 != n);
                        }
                    }
                    assert forall|m: u32| !#[trigger] node_named(ts, m, i as int + 1) implies node_pages(ts, m, i as int + 1) == 0 by {
                        assert(!node_named(ts, m, i as int)) by {
                            if node_named(ts, m, i as int) {
                                let j = choose|j: int| 0 <= j < i && #[trigger] names(ts[j], m);
                                assert(0 <= j < i as int + 1);
                            }
                        }
                        assert(names(ts[i as int], n));
                        assert(m != n);
                        assert(node_pages(ts, m, i as int) == 0);
                    }
                }
            },
            None => {
                proof {
                    assert forall|m: u32| #[trigger] node_named(ts, m, i as int + 1) implies node_named(ts, m, i as int) by {
                        let j = choose|j: int| 0 <= j < i as int + 1 && #[trigger] names(ts[j], m);
                        assert(j != i);
                    }
                    assert(node_token(ts[i as int]) is None);
                    assert forall|a: int| 0 <= a < counts@.len() implies #[trigger] counts@[a].1 == node_pages(ts, counts@[a].0, i as int + 1)
                        && node_named(ts, counts@[a].0, i as int + 1) by {
                        assert(counts@[a].1 == node_pages(ts, counts@[a].0, i as int));
                        assert(node_named(ts, counts@[a].0, i as int));
                        let m = counts@[a].0;
                        let j = choose|j: int| 0 <= j < i && #[trigger] names(ts[j], m);
                        assert(names(ts[j], m));
                        assert(0 <= j < i as int + 1);
                        assert(node_pages(ts, m, i as int + 1) == node_pages(ts, m, i as int));
                    }
                    assert forall|m: u32| !#[trigger] node_named(ts, m, i as int + 1) implies node_pages(ts, m, i as int + 1) == 0 by {
                        if node_named(ts, m, i as int) {
                            let j = choose|j: int| 0 <= j < i && #[trigger] names(ts[j], m);
                            assert(0 <= j < i as int + 1);
                        }
                        assert(node_pages(ts, m, i as int + 1) == node_pages(ts, m, i as int));
                    }
                }
            },
        }
        i += 1;
    }
    if counts.len() == 0 {
        proof {
            assert forall|m: u32| !#[trigger] node_named(ts, m, ts.len() as int) by {
                if node_named(ts, m, ts.len() as int) {
                    let a = choose|a: int| 0 <= a < counts@.len() && #[trigger] counts@[a].0 == m;
                }
            }
        }
        return None;
    }
    let mut best: usize = 0;
    let mut j: usize = 1;
    while j < counts.len()
        invariant
            1 <= j <= counts@.len(),
            best < j,
            forall|a: int| 0 <= a < j ==> #[trigger] counts@[a].1 <= counts@[best as int].1,
            forall|a: int| 0 <= a < j && counts@[a].0 > counts@[best as int].0 ==> #[trigger] counts@[a].1 < counts@[best as int].1,
        decreases counts@.len() - j,
    {
        if counts[j].1 > counts[best].1 || (counts[j].1 == counts[best].1 && counts[j].0 > counts[best].0) {
            best = j;
        }
        j += 1;
    }
    let n = counts[best].0;
    proof {
        let len = ts.len() as int;
        assert forall|m: u32| #![trigger node_pages(ts, m, len)] node_named(ts, m, len) implies node_pages(ts, m, len) <= node_pages(ts, n, len)
            && (m > n ==> node_pages(ts, m, len) < node_pages(ts, n, len)) by {
            let a = choose|a: int| 0 <= a < counts@.len() && #[trigger] counts@[a].0 == m;
            assert(counts@[a].1 <= counts@[best as int].1);
        }
    }
    Some(n)
}

/// The major and minor numbers of a device number (`st_rdev`), as the
/// kernel packs them: major in bits 8..20, minor in bits 0..8 and 20..32.
pub fn dev_major_minor(rdev: u64) -> (r: (u64, u64))
    ensures
        r.0 == (rdev >> 8u64) & 0xfff,
        r.1 == (rdev & 0xff) | ((rdev >> 12u64) & 0xfff00),
{
    ((rdev >> 8u64) & 0xfff, (rdev & 0xff) | ((rdev >> 12u64) & 0xfff00))
}

} // verus!
