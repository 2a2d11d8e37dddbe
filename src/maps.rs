//! The format of `/proc/<pid>/maps`: finding the file a page fault came from.
use vstd::prelude::*;
use crate::procfs::u64_of;
use crate::text::{parse_u64, split, split_at_byte, split_words, views, words};

verus! {

pub open spec fn hex_digit(b: u8) -> Option<nat> {
    if 48 <= b <= 57 {
        Some((b - 48) as nat)
    } else if 97 <= b <= 102 {
        Some((b - 87) as nat)
    } else if 65 <= b <= 70 {
        Some((b - 55) as nat)
    } else {
        None
    }
}

/// The value of the hexadecimal digits `s`, if they are all hex digits.
pub open spec fn hex_value(s: Seq<u8>) -> Option<nat>
    decreases s.len(),
{
    if s.len() == 0 {
        Some(0)
    } else {
        match (hex_value(s.drop_last()), hex_digit(s.last())) {
            (Some(v), Some(d)) => Some(v * 16 + d),
            _ => None,
        }
    }
}

/// A hexadecimal number that fits in `u64`, else 0.
pub open spec fn hex_or_zero(s: Seq<u8>) -> u64 {
    match hex_value(s) {
        Some(v) => if s.len() > 0 && v <= u64::MAX { v as u64 } else { 0 },
        None => 0,
    }
}

/// The device number a `maj:min` field of `maps` names: `maj << 20 | min`.
pub open spec fn maps_dev(field: Seq<u8>) -> u64 {
    let parts = split(field, 58);
    let maj = hex_or_zero(parts[0]);
    let min = if parts.len() >= 2 { hex_or_zero(parts[1]) } else { 0 };
    (((maj as nat * 1048576) % 18446744073709551616) as u64) | min
}

/// Words `from..` of `w` joined by single spaces.
pub open spec fn join_from(w: Seq<Seq<u8>>, from: int) -> Seq<u8>
    decreases w.len() - from,
{
    if from >= w.len() {
        Seq::empty()
    } else if from == w.len() - 1 {
        w[from]
    } else {
        w[from] + seq![32u8] + join_from(w, from + 1)
    }
}

/// The path of a `maps` line that maps inode `ino` of device `dev`, when the
/// path is absolute.
pub open spec fn maps_line_path(line: Seq<u8>, dev: u64, ino: u64) -> Option<Seq<u8>> {
    let w = words(line);
    if w.len() >= 6 {
        let ino_num = match u64_of(w[4]) {
            Some(v) => v,
            None => 0,
        };
        let path = join_from(w, 5);
        if maps_dev(w[3]) == dev && ino_num == ino && path.len() > 0 && path[0] == 47 {
            Some(path)
        } else {
            None
        }
    } else {
        None
    }
}

/// The first of the first `n` lines that names the file.
pub open spec fn maps_path_upto(lines: Seq<Seq<u8>>, n: int, dev: u64, ino: u64) -> Option<Seq<u8>>
    decreases n,
{
    if n <= 0 {
        None
    } else {
        match maps_path_upto(lines, n - 1, dev, ino) {
            Some(p) => Some(p),
            None => maps_line_path(lines[n - 1], dev, ino),
        }
    }
}

fn hex_exec(s: &[u8]) -> (r: u64)
    ensures
        r == hex_or_zero(s@),
{
    if s.len() == 0 {
        return 0;
    }
    let mut acc: u64 = 0;
    let mut i: usize = 0;
    while i < s.len()
        invariant
            0 < s@.len(),
            i <= s@.len(),
            hex_value(s@.take(i as int)) == Some(acc as nat),
        decreases s@.len() - i,
    {
        let b = s[i];
        assert(s@.take(i as int + 1).drop_last() =~= s@.take(i as int));
        let d: u64 = if 48 <= b && b <= 57 {
            (b - 48) as u64
        } else if 97 <= b && b <= 102 {
            (b - 87) as u64
        } else if 65 <= b && b <= 70 {
            (b - 55) as u64
        } else {
            proof {
                lemma_hex_none_stays(s@, i as int + 1);
            }
            return 0;
        };
        if acc > (u64::MAX - d) / 16 {
            proof {
                assert(acc * 16 + d > u64::MAX) by (nonlinear_arith)
                    requires
                        acc > (u64::MAX - d) / 16,
                        d <= 15,
                ;
                lemma_hex_grows(s@, i as int + 1);
            }
            return 0;
        }
        acc = acc * 16 + d;
        i += 1;
    }
    assert(s@.take(s@.len() as int) =~= s@);
    acc
}

proof fn lemma_hex_none_stays(s: Seq<u8>, i: int)
    requires
        0 < i <= s.len(),
        hex_value(s.take(i)) is None,
    ensures
        hex_value(s) is None,
    decreases s.len() - i,
{
    if i < s.len() {
        assert(s.take(i + 1).drop_last() =~= s.take(i));
        lemma_hex_none_stays(s, i + 1);
    } else {
        assert(s.take(i) =~= s);
    }
}

proof fn lemma_hex_grows(s: Seq<u8>, i: int)
    requires
        0 < i <= s.len(),
        hex_value(s.take(i)) matches Some(v) && v > u64::MAX,
    ensures
        hex_value(s) is None || hex_value(s)->0 > u64::MAX,
    decreases s.len() - i,
{
    if i < s.len() {
        assert(s.take(i + 1).drop_last() =~= s.take(i));
        if hex_value(s.take(i + 1)) is None {
            lemma_hex_none_stays(s, i + 1);
        } else {
            lemma_hex_grows(s, i + 1);
        }
    } else {
        assert(s.take(i) =~= s);
    }
}

fn maps_dev_exec(field: &[u8]) -> (r: u64)
    ensures
        r == maps_dev(field@),
{
    let parts = split_at_byte(field, 58);
    assert(split(field@, 58).len() >= 1);
    assert(views(parts@)[0] == parts@[0]@);
    let maj = hex_exec(parts[0].as_slice());
    let min = if parts.len() >= 2 {
        assert(views(parts@)[1] == parts@[1]@);
        hex_exec(parts[1].as_slice())
    } else {
        0
    };
    let shifted = maj.wrapping_mul(1048576);
    shifted | min
}

fn join_words_from(w: &Vec<Vec<u8>>, from: usize) -> (r: Vec<u8>)
    requires
        from <= w@.len(),
    ensures
        r@ == join_from(views(w@), from as int),
{
    let ghost ws = views(w@);
    let n = w.len();
    if from >= n {
        return Vec::new();
    }
    let mut out: Vec<u8> = Vec::new();
    let mut i: usize = n;
    let mut first = true;
    while i > from
        invariant
            from < n == w@.len(),
            ws == views(w@),
            from <= i <= n,
            first == (i == n),
            !first ==> out@ == join_from(ws, i as int),
        decreases i,
    {
        i -= 1;
        let mut piece: Vec<u8> = Vec::new();
        let mut j: usize = 0;
        while j < w[i].len()
            invariant
                i < w@.len(),
                j <= w@[i as int]@.len(),
                piece@ == w@[i as int]@.take(j as int),
            decreases w@[i as int]@.len() - j,
        {
            piece.push(w[i][j]);
            j += 1;
            assert(piece@ =~= w@[i as int]@.take(j as int));
        }
        assert(w@[i as int]@.take(j as int) =~= ws[i as int]);
        if !first {
            piece.push(32);
            piece.append(&mut out);
            assert(piece@ =~= ws[i as int] + seq![32u8] + join_from(ws, i as int + 1));
        }
        out = piece;
        first = false;
    }
    out
}

fn maps_line_exec(line: &[u8], dev: u64, ino: u64) -> (r: Option<Vec<u8>>)
    ensures
        match maps_line_path(line@, dev, ino) {
            Some(p) => r matches Some(v) && v@ == p,
            None => r is None,
        },
{
    let w = split_words(line);
    if w.len() < 6 {
        return None;
    }
    let ghost ws = views(w@);
    assert(ws[3] == w@[3]@);
    assert(ws[4] == w@[4]@);
    let ino_num = match parse_u64(w[4].as_slice()) {
        Some(v) => v,
        None => 0,
    };
    let path = join_words_from(&w, 5);
    if maps_dev_exec(w[3].as_slice()) == dev && ino_num == ino && path.len() > 0 && path[0] == 47 {
        Some(path)
    } else {
        None
    }
}

/// The absolute path that `/proc/<tgid>/maps` gives for inode `ino` of
/// device `dev` (first matching line), if any.
pub fn maps_path_for(maps: &[u8], dev: u64, ino: u64) -> (r: Option<Vec<u8>>)
    ensures
        match maps_path_upto(split(maps@, 10), split(maps@, 10).len() as int, dev, ino) {
            Some(p) => r matches Some(v) && v@ == p,
            None => r is None,
        },
{
    let lines = split_at_byte(maps, 10);
    let ghost ls = split(maps@, 10);
    let mut i: usize = 0;
    while i < lines.len()
        invariant
            ls == views(lines@),
            ls == split(maps@, 10),
            i <= lines@.len(),
            maps_path_upto(ls, i as int, dev, ino) is None,
        decreases lines@.len() - i,
    {
        assert(ls[i as int] == lines@[i as int]@);
        match maps_line_exec(lines[i].as_slice(), dev, ino) {
            Some(p) => {
                proof {
                    lemma_maps_first_stays(ls, i as int + 1, ls.len() as int, dev, ino);
                }
                return Some(p);
            },
            None => {},
        }
        i += 1;
    }
    None
}

proof fn lemma_maps_first_stays(lines: Seq<Seq<u8>>, i: int, n: int, dev: u64, ino: u64)
    requires
        1 <= i <= n,
        maps_path_upto(lines, i, dev, ino) is Some,
    ensures
        maps_path_upto(lines, n, dev, ino) == maps_path_upto(lines, i, dev, ino),
    decreases n - i,
{
    if n > i {
        lemma_maps_first_stays(lines, i, n - 1, dev, ino);
    }
}

} // verus!
