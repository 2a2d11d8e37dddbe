//! CPU lists in the kernel's range-coalesced form (`"0-3,8"`).
use vstd::prelude::*;
use crate::procfs::{find_byte, find_from, slice_from, slice_to, trim, trim_bytes};
use crate::text::{decimal, decimal_of, parse_u64, push_decimal, split, split_at_byte, views};

verus! {

pub open spec fn strictly_increasing(v: Seq<usize>) -> bool {
    forall|i: int, j: int| 0 <= i < j < v.len() ==> #[trigger] v[i] < #[trigger] v[j]
}

/// `v` and `w` hold the same values.
pub open spec fn same_values(v: Seq<usize>, w: Seq<usize>) -> bool {
    forall|x: usize| v.contains(x) <==> w.contains(x)
}

/// Length of the run of consecutive values of `v` that starts at `i`.
pub open spec fn run_len(v: Seq<usize>, i: int) -> int
    decreases v.len() - i,
{
    if 0 <= i && i + 1 < v.len() && v[i + 1] == v[i] + 1 {
        1 + run_len(v, i + 1)
    } else {
        1
    }
}

/// `a` alone, or `a-b`.
pub open spec fn range_text(a: usize, b: usize) -> Seq<char> {
    if a == b {
        decimal(a as nat)
    } else {
        decimal(a as nat) + seq!['-'] + decimal(b as nat)
    }
}

/// The maximal runs of `v` from index `i` on, as ranges separated by commas.
pub open spec fn ranges_from(v: Seq<usize>, i: int) -> Seq<char>
    decreases v.len() - i,
{
    if i < 0 || i >= v.len() {
        Seq::empty()
    } else {
        let r = run_len(v, i);
        let j = if 1 <= r <= v.len() - i { i + r } else { i + 1 };
        range_text(v[i], v[j - 1]) + if j < v.len() {
            seq![','] + ranges_from(v, j)
        } else {
            Seq::empty()
        }
    }
}

/// The range-coalesced text of a strictly increasing list.
pub open spec fn cpu_list_text(v: Seq<usize>) -> Seq<char> {
    ranges_from(v, 0)
}

proof fn lemma_run_len_bounds(v: Seq<usize>, i: int)
    requires
        0 <= i < v.len(),
    ensures
        1 <= run_len(v, i) <= v.len() - i,
        v[i + run_len(v, i) - 1] == v[i] + run_len(v, i) - 1,
    decreases v.len() - i,
{
    if i + 1 < v.len() && v[i + 1] == v[i] + 1 {
        lemma_run_len_bounds(v, i + 1);
    }
}

proof fn lemma_ranges_step(v: Seq<usize>, i: int, j: int)
    requires
        0 <= i <= j < v.len(),
        run_len(v, i) == j - i + 1,
    ensures
        ranges_from(v, i) == range_text(v[i], v[j]) + if j + 1 < v.len() {
            seq![','] + ranges_from(v, j + 1)
        } else {
            Seq::<char>::empty()
        },
{
}

proof fn lemma_ranges_invariant(
    before: Seq<char>,
    out: Seq<char>,
    sep_i: Seq<char>,
    item: Seq<char>,
    v: Seq<usize>,
    i: int,
    j: int,
)
    requires
        0 <= i <= j < v.len(),
        out == before + sep_i + item,
        before + sep_i + ranges_from(v, i) == ranges_from(v, 0),
        ranges_from(v, i) == item + if j + 1 < v.len() {
            seq![','] + ranges_from(v, j + 1)
        } else {
            Seq::<char>::empty()
        },
    ensures
        out + (if 0 < j + 1 < v.len() { seq![','] } else { Seq::<char>::empty() }) + ranges_from(v, j + 1)
            == ranges_from(v, 0),
{
    if j + 1 < v.len() {
        assert(out + seq![','] + ranges_from(v, j + 1) =~= before + sep_i + (item + (seq![','] + ranges_from(v, j + 1))));
    } else {
        assert(ranges_from(v, j + 1) == Seq::<char>::empty());
        assert(out + Seq::<char>::empty() + Seq::<char>::empty() =~= before + sep_i + (item + Seq::<char>::empty()));
    }
}

/// The values of `cpus`, ascending and without repeats.
pub fn sorted_distinct(cpus: &[usize]) -> (r: Vec<usize>)
    ensures
        strictly_increasing(r@),
        same_values(r@, cpus@),
{
    let mut out: Vec<usize> = Vec::new();
    let mut i: usize = 0;
    while i < cpus.len()
        invariant
            i <= cpus@.len(),
            strictly_increasing(out@),
            forall|x: usize| out@.contains(x) <==> cpus@.take(i as int).contains(x),
        decreases cpus@.len() - i,
    {
        let x = cpus[i];
        let mut k: usize = 0;
        while k < out.len() && out[k] < x
            invariant
                k <= out@.len(),
                i < cpus@.len(),
                x == cpus@[i as int],
                strictly_increasing(out@),
                forall|y: usize| out@.contains(y) <==> cpus@.take(i as int).contains(y),
                forall|m: int| 0 <= m < k ==> #[trigger] out@[m] < x,
            decreases out@.len() - k,
        {
            k += 1;
        }
        let ghost before = out@;
        if k < out.len() && out[k] == x {
        } else {
            out.insert(k, x);
            assert(out@ == before.insert(k as int, x));
            assert forall|a: int, b: int| 0 <= a < b < out@.len() implies #[trigger] out@[a] < #[trigger] out@[b] by {
                if b < k {
                } else if a < k && b == k {
                } else if a < k {
                    assert(out@[b] == before[b - 1]);
                } else if a == k {
                    assert(out@[b] == before[b - 1]);
                    assert(before[k as int] > x);
                    if b - 1 > k {
                        assert(before[k as int] < before[b - 1]);
                    }
                } else {
                    assert(out@[a] == before[a - 1]);
                    assert(out@[b] == before[b - 1]);
                }
            }
        }
        proof {
            let pre = cpus@.take(i as int);
            let post = cpus@.take(i as int + 1);
            assert(post =~= pre.push(x));
            assert forall|y: usize| post.contains(y) <==> (pre.contains(y) || y == x) by {
                if post.contains(y) && y != x {
                    let m = choose|m: int| 0 <= m < post.len() && post[m] == y;
                    assert(pre[m] == y);
                }
                if pre.contains(y) {
                    let m = choose|m: int| 0 <= m < pre.len() && pre[m] == y;
                    assert(post[m] == y);
                }
                if y == x {
                    assert(post[i as int] == x);
                }
            }
            assert forall|y: usize| out@.contains(y) <==> (before.contains(y) || y == x) by {
                if out@.len() != before.len() {
                    if out@.contains(y) {
                        let m = choose|m: int| 0 <= m < out@.len() && out@[m] == y;
                        if m < k {
                            assert(before[m] == y);
                        } else if m > k {
                            assert(before[m - 1] == y);
                        }
                    }
                    if before.contains(y) {
                        let m = choose|m: int| 0 <= m < before.len() && before[m] == y;
                        if m < k {
                            assert(out@[m] == y);
                        } else {
                            assert(out@[m + 1] == y);
                        }
                    }
                    if y == x {
                        assert(out@[k as int] == x);
                    }
                } else {
                    if y == x {
                        assert(out@[k as int] == x);
                    }
                }
            }
            assert forall|y: usize| out@.contains(y) <==> post.contains(y) by {
                assert(before.contains(y) <==> pre.contains(y));
            }
            assert(post == cpus@.take(i as int + 1));
        }
        i += 1;
    }
    assert(cpus@.take(cpus@.len() as int) =~= cpus@);
    out
}

/// The CPUs of `cpus` in range-coalesced form: ascending, repeats removed,
/// each maximal run of consecutive CPUs written `a-b`, runs separated by
/// commas.
pub fn to_cpuset_list(cpus: &[usize]) -> (r: String)
    ensures
        exists|v: Seq<usize>| strictly_increasing(v) && same_values(v, cpus@) && r@ == cpu_list_text(v),
{
    let v = sorted_distinct(cpus);
    let n = v.len();
    let mut out = String::new();
    let mut i: usize = 0;
    assert(out@ =~= Seq::<char>::empty());
    while i < n
        invariant
            n == v@.len(),
            strictly_increasing(v@),
            i <= n,
            out@ + (if 0 < i < n { seq![','] } else { Seq::<char>::empty() }) + ranges_from(v@, i as int)
                == ranges_from(v@, 0),
        decreases n - i,
    {
        proof {
            lemma_run_len_bounds(v@, i as int);
        }
        proof {
            reveal_strlit(",");
            reveal_strlit("-");
        }
        let ghost before = out@;
        if i > 0 {
            out.append(",");
        }
        let mut j: usize = i;
        while j + 1 < n && v[j + 1] == v[j] + 1
            invariant
                i <= j < n,
                n == v@.len(),
                strictly_increasing(v@),
                run_len(v@, i as int) == (j - i) + run_len(v@, j as int),
            decreases n - j,
        {
            j += 1;
        }
        assert(run_len(v@, j as int) == 1);
        assert(j > i ==> v@[i as int] < v@[j as int]);
        push_decimal(&mut out, v[i] as u64);
        if j > i {
            out.append("-");
            push_decimal(&mut out, v[j] as u64);
        }
        proof {
            let item = range_text(v@[i as int], v@[j as int]);
            let sep_i = if 0 < i < n { seq![','] } else { Seq::<char>::empty() };
            assert(out@ =~= before + sep_i + item);
            lemma_ranges_step(v@, i as int, j as int);
            lemma_ranges_invariant(before, out@, sep_i, item, v@, i as int, j as int);
        }
        i = j + 1;
    }
    assert(out@ =~= ranges_from(v@, 0));
    out
}

pub open spec fn usize_of(s: Seq<u8>) -> Option<usize> {
    match decimal_of(trim(s), usize::MAX as nat) {
        Some(v) => Some(v as usize),
        None => None,
    }
}

/// The CPUs an item of a CPU list names: `a-b` (either order) for the range
/// between, `a` for itself; anything else names none. Whitespace around the
/// numbers is allowed.
pub open spec fn item_range(p: Seq<u8>) -> Option<(usize, usize)> {
    match find_from(p, 45, 0) {
        Some(k) => match (usize_of(p.take(k)), usize_of(p.subrange(k + 1, p.len() as int))) {
            (Some(a), Some(b)) => if a <= b { Some((a, b)) } else { Some((b, a)) },
            _ => None,
        },
        None => match usize_of(p) {
            Some(a) => Some((a, a)),
            None => None,
        },
    }
}

/// The items of a CPU list: the comma-separated parts of the trimmed text.
pub open spec fn cpu_items(s: Seq<u8>) -> Seq<Seq<u8>> {
    split(trim(s), 44)
}

/// `x` is named by one of the first `n` items.
pub open spec fn listed_upto(items: Seq<Seq<u8>>, n: int, x: usize) -> bool {
    exists|i: int| 0 <= i < n && #[trigger] in_item(items[i], x)
}

pub open spec fn in_item(p: Seq<u8>, x: usize) -> bool {
    match item_range(p) {
        Some((a, b)) => a <= x <= b,
        None => false,
    }
}

/// `x` is a CPU the list `s` names.
pub open spec fn listed(s: Seq<u8>, x: usize) -> bool {
    listed_upto(cpu_items(s), cpu_items(s).len() as int, x)
}

fn parse_usize(s: &[u8]) -> (r: Option<usize>)
    ensures
        r == usize_of(s@),
{
    let t = trim_bytes(s);
    match parse_u64(t.as_slice()) {
        Some(v) => {
            if v <= usize::MAX as u64 {
                Some(v as usize)
            } else {
                None
            }
        },
        None => None,
    }
}

fn item_range_exec(p: &[u8]) -> (r: Option<(usize, usize)>)
    ensures
        r == item_range(p@),
{
    let n = p.len();
    match find_byte(p, 45, 0) {
        Some(k) => {
            let left = slice_to(p, k);
            let right = slice_from(p, k + 1);
            match (parse_usize(left.as_slice()), parse_usize(right.as_slice())) {
                (Some(a), Some(b)) => if a <= b { Some((a, b)) } else { Some((b, a)) },
                _ => None,
            }
        },
        None => match parse_usize(p) {
            Some(a) => Some((a, a)),
            None => None,
        },
    }
}

fn push_one(all: &mut Vec<usize>, c: usize)
    ensures
        forall|x: usize| final(all)@.contains(x) <==> (old(all)@.contains(x) || x == c),
{
    let ghost pre = all@;
    all.push(c);
    assert forall|x: usize| all@.contains(x) <==> (pre.contains(x) || x == c) by {
        if all@.contains(x) && x != c {
            let m = choose|m: int| 0 <= m < all@.len() && all@[m] == x;
            assert(pre[m] == x);
        }
        if pre.contains(x) {
            let m = choose|m: int| 0 <= m < pre.len() && pre[m] == x;
            assert(all@[m] == x);
        }
        if x == c {
            assert(all@[pre.len() as int] == c);
        }
    }
}

fn push_range(all: &mut Vec<usize>, a: usize, b: usize)
    requires
        a <= b,
    ensures
        forall|x: usize| final(all)@.contains(x) <==> (old(all)@.contains(x) || (a <= x && x <= b)),
{
    let ghost start = all@;
    let mut c: usize = a;
    while c < b
        invariant
            a <= c <= b,
            forall|x: usize| #[trigger] all@.contains(x) <==> (start.contains(x) || (a <= x && x < c)),
        decreases b - c,
    {
        let ghost pre = all@;
        push_one(all, c);
        let ghost c0 = c;
        c += 1;
        assert forall|x: usize| #[trigger] all@.contains(x) <==> (start.contains(x) || (a <= x && x < c)) by {
            assert(pre.contains(x) <==> (start.contains(x) || (a <= x && x < c0)));
            assert(all@.contains(x) <==> (pre.contains(x) || x == c0));
        }
    }
    let ghost pre = all@;
    push_one(all, b);
    assert forall|x: usize| all@.contains(x) <==> (start.contains(x) || (a <= x && x <= b)) by {
        assert(pre.contains(x) <==> (start.contains(x) || (a <= x && x < b)));
    }
}

/// The CPUs a list such as `"0-3,8"` names, ascending and without repeats;
/// items that are not a number or a range of numbers are skipped.
pub fn parse_cpu_list(s: &[u8]) -> (r: Vec<usize>)
    ensures
        strictly_increasing(r@),
        forall|x: usize| r@.contains(x) <==> listed(s@, x),
{
    let t = trim_bytes(s);
    let items = split_at_byte(t.as_slice(), 44);
    let ghost its = cpu_items(s@);
    assert(views(items@) == its);
    let mut all: Vec<usize> = Vec::new();
    let mut i: usize = 0;
    while i < items.len()
        invariant
            views(items@) == its,
            i <= items@.len(),
            forall|x: usize| all@.contains(x) <==> listed_upto(its, i as int, x),
        decreases items@.len() - i,
    {
        assert(its[i as int] == items@[i as int]@);
        let ghost before = all@;
        match item_range_exec(items[i].as_slice()) {
            Some((a, b)) => {
                push_range(&mut all, a, b);
                proof {
                    assert forall|x: usize| all@.contains(x) <==> listed_upto(its, i as int + 1, x) by {
                        if listed_upto(its, i as int + 1, x) {
                            let j = choose|j: int| 0 <= j < i as int + 1 && #[trigger] in_item(its[j], x);
                            if j < i {
                                assert(listed_upto(its, i as int, x));
                            }
                        }
                        if listed_upto(its, i as int, x) {
                            let j = choose|j: int| 0 <= j < i && #[trigger] in_item(its[j], x);
                            assert(0 <= j < i as int + 1);
                        }
                        if a <= x <= b {
                            assert(in_item(its[i as int], x));
                        }
                    }
                }
            },
            None => {
                proof {
                    assert forall|x: usize| all@.contains(x) <==> listed_upto(its, i as int + 1, x) by {
                        if listed_upto(its, i as int + 1, x) {
                            let j = choose|j: int| 0 <= j < i as int + 1 && #[trigger] in_item(its[j], x);
                            assert(j != i);
                            assert(listed_upto(its, i as int, x));
                        }
                        if listed_upto(its, i as int, x) {
                            let j = choose|j: int| 0 <= j < i && #[trigger] in_item(its[j], x);
                            assert(0 <= j < i as int + 1);
                        }
                    }
                }
            },
        }
        i += 1;
    }
    let r = sorted_distinct(all.as_slice());
    r
}

/// Two strictly increasing lists with the same values are the same list.
pub proof fn lemma_increasing_unique(v: Seq<usize>, w: Seq<usize>)
    requires
        strictly_increasing(v),
        strictly_increasing(w),
        same_values(v, w),
    ensures
        v == w,
{
    assert forall|i: int| 0 <= i < v.len() && 0 <= i < w.len() implies v[i] == w[i] by {
        lemma_increasing_prefix(v, w, i);
    }
    if v.len() > w.len() {
        let x = v[w.len() as int];
        assert(v.contains(x));
        let j = choose|j: int| 0 <= j < w.len() && w[j] == x;
        lemma_increasing_prefix(v, w, j);
    } else if w.len() > v.len() {
        let x = w[v.len() as int];
        assert(w.contains(x));
        let j = choose|j: int| 0 <= j < v.len() && v[j] == x;
        lemma_increasing_prefix(v, w, j);
    }
    assert(v =~= w);
}

proof fn lemma_increasing_prefix(v: Seq<usize>, w: Seq<usize>, i: int)
    requires
        strictly_increasing(v),
        strictly_increasing(w),
        same_values(v, w),
        0 <= i < v.len(),
        0 <= i < w.len(),
    ensures
        v[i] == w[i],
    decreases i,
{
    if i > 0 {
        lemma_increasing_prefix(v, w, i - 1);
    }
    assert(v.contains(v[i]));
    let j = choose|j: int| 0 <= j < w.len() && w[j] == v[i];
    assert(w.contains(w[i]));
    let k = choose|k: int| 0 <= k < v.len() && v[k] == w[i];
    if j < i {
        lemma_increasing_prefix(v, w, j);
    }
    if k < i {
        lemma_increasing_prefix(v, w, k);
    }
}

/// Emitting a parsed CPU list gives the range form of exactly the CPUs the
/// list named: ascending, without repeats, each maximal run written `a-b`.
pub proof fn lemma_cpu_list_round_trip(s: Seq<u8>, parsed: Seq<usize>, text: Seq<char>)
    requires
        strictly_increasing(parsed),
        forall|x: usize| parsed.contains(x) <==> listed(s, x),
        exists|v: Seq<usize>| strictly_increasing(v) && same_values(v, parsed) && text == cpu_list_text(v),
    ensures
        text == cpu_list_text(parsed),
        forall|x: usize| parsed.contains(x) <==> listed(s, x),
{
    let v = choose|v: Seq<usize>| strictly_increasing(v) && same_values(v, parsed) && text == cpu_list_text(v);
    lemma_increasing_unique(v, parsed);
}

} // verus!
