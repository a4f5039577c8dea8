//! The live interface parameters, read from the `key: value` status output
//! of the tunnel tool.

use vstd::prelude::*;
use crate::text::{
    chars_of, find_first, first_at, line_ranges, parse_u32, split_lines, string_of, trim, trim_range,
    u32_of,
};

verus! {

/// `k` is `t`, or its upper-case form where `t` is a lower-case ASCII letter.
pub open spec fn chars_match(k: char, t: char) -> bool {
    k == t || ('a' <= t && t <= 'z' && k as u32 + 32 == t as u32)
}

/// `key` is the lower-case `tag` up to ASCII case.
pub open spec fn key_matches(key: Seq<char>, tag: Seq<char>) -> bool {
    key.len() == tag.len() && forall|i: int| 0 <= i < key.len() ==> chars_match(#[trigger] key[i], tag[i])
}

/// The trimmed key and value of a `key: value` line.
pub open spec fn status_entry(line: Seq<char>) -> Option<(Seq<char>, Seq<char>)> {
    if exists|k: int| first_at(line, ':', k) {
        let k = choose|k: int| first_at(line, ':', k);
        Some((trim(line.subrange(0, k)), trim(line.subrange(k + 1, line.len() as int))))
    } else {
        None
    }
}

/// The value of the last line whose key is `tag`.
pub open spec fn status_value(lines: Seq<Seq<char>>, tag: Seq<char>) -> Option<Seq<char>>
    decreases lines.len(),
{
    if lines.len() == 0 {
        None
    } else {
        match status_entry(lines.last()) {
            Some((k, v)) => if key_matches(k, tag) {
                Some(v)
            } else {
                status_value(lines.drop_last(), tag)
            },
            None => status_value(lines.drop_last(), tag),
        }
    }
}

pub open spec fn status_number(lines: Seq<Seq<char>>, tag: Seq<char>) -> Option<u32> {
    match status_value(lines, tag) {
        Some(v) => u32_of(v),
        None => None,
    }
}

pub struct InterfaceView {
    pub public_key: Seq<char>,
    pub port: u32,
    pub jc: u32,
    pub jmin: u32,
    pub jmax: u32,
    pub s1: u32,
    pub s2: u32,
    pub h1: u32,
    pub h2: u32,
    pub h3: u32,
    pub h4: u32,
}

/// What the status output `s` gives: all ten parameters, or `None`.
pub open spec fn interface_of(s: Seq<char>) -> Option<InterfaceView> {
    let ls = split_lines(s);
    match (
        status_value(ls, "public key"@),
        status_number(ls, "listening port"@),
        status_number(ls, "jc"@),
        status_number(ls, "jmin"@),
        status_number(ls, "jmax"@),
        status_number(ls, "s1"@),
        status_number(ls, "s2"@),
        status_number(ls, "h1"@),
        status_number(ls, "h2"@),
        status_number(ls, "h3"@),
        status_number(ls, "h4"@),
    ) {
        (
            Some(public_key),
            Some(port),
            Some(jc),
            Some(jmin),
            Some(jmax),
            Some(s1),
            Some(s2),
            Some(h1),
            Some(h2),
            Some(h3),
            Some(h4),
        ) => Some(InterfaceView { public_key, port, jc, jmin, jmax, s1, s2, h1, h2, h3, h4 }),
        _ => None,
    }
}

/// The parameters of the live interface.
pub struct AWGInterfaceData {
    pub public_key: String,
    pub port: u32,
    pub jc: u32,
    pub jmin: u32,
    pub jmax: u32,
    pub s1: u32,
    pub s2: u32,
    pub h1: u32,
    pub h2: u32,
    pub h3: u32,
    pub h4: u32,
}

impl View for AWGInterfaceData {
    type V = InterfaceView;

    open spec fn view(&self) -> InterfaceView {
        InterfaceView {
            public_key: self.public_key@,
            port: self.port,
            jc: self.jc,
            jmin: self.jmin,
            jmax: self.jmax,
            s1: self.s1,
            s2: self.s2,
            h1: self.h1,
            h2: self.h2,
            h3: self.h3,
            h4: self.h4,
        }
    }
}

fn key_matches_exec(s: &[char], lo: usize, hi: usize, tag: &[char]) -> (r: bool)
    requires
        lo <= hi <= s@.len(),
    ensures
        r == key_matches(s@.subrange(lo as int, hi as int), tag@),
{
    let ghost key = s@.subrange(lo as int, hi as int);
    if hi - lo != tag.len() {
        return false;
    }
    let mut i: usize = 0;
    while i < tag.len()
        invariant
            hi - lo == tag@.len(),
            lo <= hi <= s@.len(),
            key == s@.subrange(lo as int, hi as int),
            0 <= i <= tag@.len(),
            forall|j: int| 0 <= j < i ==> chars_match(#[trigger] key[j], tag@[j]),
        decreases tag@.len() - i,
    {
        let k = s[lo + i];
        let t = tag[i];
        if !(k == t || ('a' <= t && t <= 'z' && k as u32 == t as u32 - 32)) {
            assert(key[i as int] == k);
            return false;
        }
        i = i + 1;
    }
    true
}

/// The bounds of the value of the last line of `s` whose key is `tag`.
fn find_status(s: &[char], ls: &Vec<(usize, usize)>, tag: &[char]) -> (r: Option<(usize, usize)>)
    requires
        ls@.len() == split_lines(s@).len(),
        forall|k: int|
            0 <= k < ls@.len() ==> (#[trigger] ls@[k]).0 <= ls@[k].1 <= s@.len() && s@.subrange(
                ls@[k].0 as int,
                ls@[k].1 as int,
            ) == split_lines(s@)[k],
    ensures
        match r {
            Some((a, b)) => a <= b <= s@.len() && status_value(split_lines(s@), tag@) == Some(
                s@.subrange(a as int, b as int),
            ),
            None => status_value(split_lines(s@), tag@) is None,
        },
{
    let ghost lines = split_lines(s@);
    let mut i = ls.len();
    assert(lines.take(i as int) =~= lines);
    while i > 0
        invariant
            0 <= i <= ls@.len(),
            lines == split_lines(s@),
            ls@.len() == lines.len(),
            forall|k: int|
                0 <= k < ls@.len() ==> (#[trigger] ls@[k]).0 <= ls@[k].1 <= s@.len() && s@.subrange(
                    ls@[k].0 as int,
                    ls@[k].1 as int,
                ) == lines[k],
            status_value(lines, tag@) == status_value(lines.take(i as int), tag@),
        decreases i,
    {
        let (lo, hi) = ls[i - 1];
        let ghost line = s@.subrange(lo as int, hi as int);
        assert(line == lines[i - 1]);
        assert(lines.take(i as int).last() == line);
        assert(lines.take(i as int).drop_last() =~= lines.take(i - 1));
        match find_first(s, lo, hi, ':') {
            Some(k) => {
                let (ka, kb) = trim_range(s, lo, k);
                assert(line.subrange(0, k - lo) =~= s@.subrange(lo as int, k as int));
                assert(line.subrange(k - lo + 1, line.len() as int) =~= s@.subrange(k + 1, hi as int));
                if key_matches_exec(s, ka, kb, tag) {
                    let (va, vb) = trim_range(s, k + 1, hi);
                    return Some((va, vb));
                }
            },
            None => {
                assert forall|k: int| !first_at(line, ':', k) by {
                    if 0 <= k < line.len() {
                        assert(line[k] == s@[lo + k]);
                    }
                };
            },
        }
        i = i - 1;
    }
    None
}

fn status_number_exec(s: &[char], ls: &Vec<(usize, usize)>, tag: &str) -> (r: Option<u32>)
    requires
        ls@.len() == split_lines(s@).len(),
        forall|k: int|
            0 <= k < ls@.len() ==> (#[trigger] ls@[k]).0 <= ls@[k].1 <= s@.len() && s@.subrange(
                ls@[k].0 as int,
                ls@[k].1 as int,
            ) == split_lines(s@)[k],
    ensures
        r == status_number(split_lines(s@), tag@),
{
    let t = chars_of(tag);
    match find_status(s, ls, &t) {
        Some((a, b)) => parse_u32(s, a, b),
        None => None,
    }
}

impl AWGInterfaceData {
    /// Reads the parameters from the status output of the tunnel tool;
    /// `None` where one of them is missing or not a number.
    pub fn from_str(s: &str) -> (r: Option<AWGInterfaceData>)
        ensures
            match r {
                Some(d) => interface_of(s@) == Some(d@),
                None => interface_of(s@) is None,
            },
    {
        let cs = chars_of(s);
        let ls = line_ranges(&cs);
        let pk_tag = chars_of("public key");
        let public_key = match find_status(&cs, &ls, &pk_tag) {
            Some((a, b)) => string_of(&cs[a..b]),
            None => return None,
        };
        let port = match status_number_exec(&cs, &ls, "listening port") {
            Some(v) => v,
            None => return None,
        };
        let jc = match status_number_exec(&cs, &ls, "jc") {
            Some(v) => v,
            None => return None,
        };
        let jmin = match status_number_exec(&cs, &ls, "jmin") {
            Some(v) => v,
            None => return None,
        };
        let jmax = match status_number_exec(&cs, &ls, "jmax") {
            Some(v) => v,
            None => return None,
        };
        let s1 = match status_number_exec(&cs, &ls, "s1") {
            Some(v) => v,
            None => return None,
        };
        let s2 = match status_number_exec(&cs, &ls, "s2") {
            Some(v) => v,
            None => return None,
        };
        let h1 = match status_number_exec(&cs, &ls, "h1") {
            Some(v) => v,
            None => return None,
        };
        let h2 = match status_number_exec(&cs, &ls, "h2") {
            Some(v) => v,
            None => return None,
        };
        let h3 = match status_number_exec(&cs, &ls, "h3") {
            Some(v) => v,
            None => return None,
        };
        let h4 = match status_number_exec(&cs, &ls, "h4") {
            Some(v) => v,
            None => return None,
        };
        Some(AWGInterfaceData { public_key, port, jc, jmin, jmax, s1, s2, h1, h2, h3, h4 })
    }
}

} // verus!
