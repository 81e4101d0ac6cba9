use vstd::prelude::*;
use vstd::string::StringSliceAdditionalSpecFns;
use vstd::utf8::{
    decode_utf8, encode_utf8_decode_utf8, encode_utf8_valid_utf8, is_char_boundary,
    is_char_boundary_iff_not_is_continuation_byte, is_char_boundary_start_end_of_seq, valid_utf8,
    valid_utf8_split,
};
use crate::resolve::{maps_wf, sections_wf, IntervalMap, MapSection};

verus! {

/// The kinds of byte that the almanac's tokens are made of.
#[derive(Debug, Clone, Copy, PartialEq, Eq, Structural)]
pub enum ByteClass {
    /// `0` to `9`.
    Digit,
    /// A space or a tab.
    Space,
    /// A space, a tab, a carriage return or a line feed.
    Multispace,
    /// An ASCII letter.
    Alpha,
}

pub open spec fn in_class(c: ByteClass, b: u8) -> bool {
    match c {
        ByteClass::Digit => 48 <= b <= 57,
        ByteClass::Space => b == 32 || b == 9,
        ByteClass::Multispace => b == 32 || b == 9 || b == 13 || b == 10,
        ByteClass::Alpha => (65 <= b <= 90) || (97 <= b <= 122),
    }
}

fn class_has(c: ByteClass, b: u8) -> (r: bool)
    ensures
        r == in_class(c, b),
{
    match c {
        ByteClass::Digit => 48 <= b && b <= 57,
        ByteClass::Space => b == 32 || b == 9,
        ByteClass::Multispace => b == 32 || b == 9 || b == 13 || b == 10,
        ByteClass::Alpha => (65 <= b && b <= 90) || (97 <= b && b <= 122),
    }
}

/// Where the run of bytes of class `c` that starts at `i` ends.
pub open spec fn run_end(s: Seq<u8>, i: int, c: ByteClass) -> int
    decreases s.len() - i,
{
    if 0 <= i < s.len() && in_class(c, s[i]) {
        run_end(s, i + 1, c)
    } else {
        i
    }
}

/// The end of a non-empty run of class `c` at `i`, if there is one.
pub open spec fn run1(s: Seq<u8>, i: int, c: ByteClass) -> Option<int> {
    if run_end(s, i, c) > i {
        Some(run_end(s, i, c))
    } else {
        None
    }
}

proof fn lemma_run_end(s: Seq<u8>, i: int, c: ByteClass)
    requires
        0 <= i <= s.len(),
    ensures
        i <= run_end(s, i, c) <= s.len(),
        forall|k: int| i <= k < run_end(s, i, c) ==> in_class(c, #[trigger] s[k]),
        run_end(s, i, c) == s.len() || !in_class(c, s[run_end(s, i, c)]),
    decreases s.len() - i,
{
    if i < s.len() && in_class(c, s[i]) {
        lemma_run_end(s, i + 1, c);
    }
}

/// Skips the run of bytes of class `c` that starts at `i`.
fn scan(s: &[u8], i: usize, c: ByteClass) -> (r: usize)
    requires
        i <= s@.len(),
    ensures
        r as int == run_end(s@, i as int, c),
{
    let mut j: usize = i;
    while j < s.len() && class_has(c, s[j])
        invariant
            i <= j <= s@.len(),
            run_end(s@, i as int, c) == run_end(s@, j as int, c),
        decreases s@.len() - j,
    {
        j = j + 1;
    }
    j
}

/// Skips a non-empty run of class `c`; `None` where none starts at `i`.
fn scan1(s: &[u8], i: usize, c: ByteClass) -> (r: Option<usize>)
    requires
        i <= s@.len(),
    ensures
        r is Some <==> run1(s@, i as int, c) is Some,
        r matches Some(j) ==> run1(s@, i as int, c) == Some(j as int),
{
    let j = scan(s, i, c);
    if j > i {
        Some(j)
    } else {
        None
    }
}

/// The number written in decimal by the digits `s[i..j]`.
pub open spec fn digits_value(s: Seq<u8>, i: int, j: int) -> int
    decreases j - i,
{
    if j <= i {
        0
    } else {
        digits_value(s, i, j - 1) * 10 + (s[j - 1] - 48)
    }
}

proof fn lemma_digits_grow(s: Seq<u8>, i: int, j: int, k: int)
    requires
        i <= j <= k <= s.len(),
        forall|t: int| i <= t < k ==> in_class(ByteClass::Digit, #[trigger] s[t]),
    ensures
        0 <= digits_value(s, i, j) <= digits_value(s, i, k),
    decreases k - i,
{
    if j < k {
        lemma_digits_grow(s, i, j, k - 1);
        assert(in_class(ByteClass::Digit, s[k - 1]));
    } else if j > i {
        lemma_digits_grow(s, i, j - 1, j - 1);
        assert(in_class(ByteClass::Digit, s[j - 1]));
    }
}

/// An unsigned number at `i`: one or more digits, as many as there are, whose
/// value fits in a `u64`; and the position after it.
pub open spec fn spec_u64(s: Seq<u8>, i: int) -> Option<(u64, int)> {
    let e = run_end(s, i, ByteClass::Digit);
    if e > i && digits_value(s, i, e) <= u64::MAX {
        Some((digits_value(s, i, e) as u64, e))
    } else {
        None
    }
}

/// Reads an unsigned number at `i`.
fn u64_at(s: &[u8], i: usize) -> (r: Option<(u64, usize)>)
    requires
        i <= s@.len(),
    ensures
        r is Some <==> spec_u64(s@, i as int) is Some,
        r matches Some((v, j)) ==> spec_u64(s@, i as int) == Some((v, j as int)),
{
    proof {
        lemma_run_end(s@, i as int, ByteClass::Digit);
    }
    let mut j: usize = i;
    let mut v: u64 = 0;
    while j < s.len() && class_has(ByteClass::Digit, s[j])
        invariant
            i <= j <= s@.len(),
            run_end(s@, i as int, ByteClass::Digit) == run_end(s@, j as int, ByteClass::Digit),
            j <= run_end(s@, i as int, ByteClass::Digit) <= s@.len(),
            forall|k: int|
                i <= k < run_end(s@, i as int, ByteClass::Digit) ==> in_class(
                    ByteClass::Digit,
                    #[trigger] s@[k],
                ),
            v as int == digits_value(s@, i as int, j as int),
        decreases s@.len() - j,
    {
        proof {
            lemma_run_end(s@, j + 1, ByteClass::Digit);
        }
        let d = (s[j] - 48) as u64;
        match v.checked_mul(10) {
            None => {
                proof {
                    lemma_digits_grow(
                        s@,
                        i as int,
                        j + 1,
                        run_end(s@, i as int, ByteClass::Digit),
                    );
                }
                return None;
            },
            Some(t) => match t.checked_add(d) {
                None => {
                    proof {
                        lemma_digits_grow(
                            s@,
                            i as int,
                            j + 1,
                            run_end(s@, i as int, ByteClass::Digit),
                        );
                    }
                    return None;
                },
                Some(w) => {
                    v = w;
                },
            },
        }
        j = j + 1;
    }
    if j == i {
        None
    } else {
        Some((v, j))
    }
}

/// The bytes `t` stand at `i`.
pub open spec fn spec_tag(s: Seq<u8>, i: int, t: Seq<u8>) -> bool {
    0 <= i && i + t.len() <= s.len() && s.subrange(i, i + t.len()) == t
}

/// Whether the bytes `t` stand at `i`.
fn tag_at(s: &[u8], i: usize, t: &[u8]) -> (r: bool)
    requires
        i <= s@.len(),
    ensures
        r == spec_tag(s@, i as int, t@),
{
    if t.len() > s.len() - i {
        return false;
    }
    let n = s.len();
    let mut k: usize = 0;
    while k < t.len()
        invariant
            n == s@.len(),
            i + t@.len() <= s@.len(),
            i <= s@.len(),
            t@.len() == t.len(),
            0 <= k <= t@.len(),
            forall|m: int| 0 <= m < k ==> s@[i + m] == t@[m],
        decreases t@.len() - k,
    {
        if s[i + k] != t[k] {
            assert(i + k < n);
            proof {
                assert(s@.subrange(i as int, i + t@.len())[k as int] != t@[k as int]);
            }
            return false;
        }
        k = k + 1;
    }
    proof {
        assert(s@.subrange(i as int, i + t@.len()) =~= t@);
    }
    true
}

/// The numbers after the first of a list: each one a run of spaces and a
/// number further on, as long as both are there; and the position after the
/// last number taken.
pub open spec fn u64_list_tail(s: Seq<u8>, i: int) -> (Seq<u64>, int)
    decreases s.len() - i,
{
    match run1(s, i, ByteClass::Space) {
        None => (Seq::empty(), i),
        Some(j) => match spec_u64(s, j) {
            None => (Seq::empty(), i),
            // A number always ends past `i` and inside the text; the test only
            // keeps the recursion visibly finite.
            Some((v, k)) => if i < k <= s.len() {
                (seq![v] + u64_list_tail(s, k).0, u64_list_tail(s, k).1)
            } else {
                (Seq::empty(), i)
            },
        },
    }
}

/// One or more numbers separated by runs of spaces.
pub open spec fn spec_u64_list(s: Seq<u8>, i: int) -> Option<(Seq<u64>, int)> {
    match spec_u64(s, i) {
        None => None,
        Some((v, k)) => Some((seq![v] + u64_list_tail(s, k).0, u64_list_tail(s, k).1)),
    }
}

proof fn lemma_u64_bounds(s: Seq<u8>, i: int)
    requires
        0 <= i <= s.len(),
    ensures
        spec_u64(s, i) matches Some((v, k)) ==> i < k <= s.len() && s[k - 1] < 128,
{
    lemma_run_end(s, i, ByteClass::Digit);
    if let Some((v, k)) = spec_u64(s, i) {
        assert(in_class(ByteClass::Digit, s[k - 1]));
    }
}

proof fn lemma_run1_bounds(s: Seq<u8>, i: int, c: ByteClass)
    requires
        0 <= i <= s.len(),
    ensures
        run1(s, i, c) matches Some(j) ==> i < j <= s.len(),
{
    lemma_run_end(s, i, c);
}

/// Reads one or more numbers separated by runs of spaces.
fn u64_list_at(s: &[u8], i: usize) -> (r: Option<(Vec<u64>, usize)>)
    requires
        i <= s@.len(),
    ensures
        r is Some <==> spec_u64_list(s@, i as int) is Some,
        r matches Some((v, j)) ==> spec_u64_list(s@, i as int) == Some((v@, j as int)),
{
    let (first, mut p) = match u64_at(s, i) {
        None => return None,
        Some(x) => x,
    };
    let mut out: Vec<u64> = Vec::new();
    out.push(first);
    let ghost k0 = p as int;
    proof {
        lemma_u64_bounds(s@, i as int);
    }
    loop
        invariant
            p <= s@.len(),
            out@ + u64_list_tail(s@, p as int).0 == seq![first] + u64_list_tail(s@, k0).0,
            u64_list_tail(s@, p as int).1 == u64_list_tail(s@, k0).1,
        ensures
            out@ == seq![first] + u64_list_tail(s@, k0).0,
            p as int == u64_list_tail(s@, k0).1,
        decreases s@.len() - p,
    {
        proof {
            assert(out@ + Seq::<u64>::empty() =~= out@);
        }
        proof {
            lemma_run1_bounds(s@, p as int, ByteClass::Space);
        }
        let j = match scan1(s, p, ByteClass::Space) {
            None => break,
            Some(j) => j,
        };
        proof {
            lemma_u64_bounds(s@, j as int);
        }
        let (v, k) = match u64_at(s, j) {
            None => break,
            Some(x) => x,
        };
        let ghost before = out@;
        out.push(v);
        proof {
            assert(out@ + u64_list_tail(s@, k as int).0 =~= before + (seq![v]
                + u64_list_tail(s@, k as int).0));
        }
        p = k;
    }
    Some((out, p))
}

/// `seeds:`
pub open spec fn seeds_tag() -> Seq<u8> {
    seq![115u8, 101u8, 101u8, 100u8, 115u8, 58u8]
}

/// `-to-`
pub open spec fn to_tag() -> Seq<u8> {
    seq![45u8, 116u8, 111u8, 45u8]
}

/// ` map:`
pub open spec fn map_tag() -> Seq<u8> {
    seq![32u8, 109u8, 97u8, 112u8, 58u8]
}

/// A line feed.
pub open spec fn newline() -> Seq<u8> {
    seq![10u8]
}

/// The seed line: `seeds:`, a run of spaces, then one or more numbers
/// separated by runs of spaces.
pub open spec fn spec_seeds(s: Seq<u8>, i: int) -> Option<(Seq<u64>, int)> {
    if spec_tag(s, i, seeds_tag()) {
        match run1(s, i + 6, ByteClass::Space) {
            None => None,
            Some(j) => spec_u64_list(s, j),
        }
    } else {
        None
    }
}

/// A rule line: three numbers separated by runs of spaces, read as
/// destination start, source start and length; the rule must be well formed.
pub open spec fn spec_map_line(s: Seq<u8>, i: int) -> Option<(IntervalMap, int)> {
    match spec_u64(s, i) {
        None => None,
        Some((d, a)) => match run1(s, a, ByteClass::Space) {
            None => None,
            Some(b) => match spec_u64(s, b) {
                None => None,
                Some((src, c)) => match run1(s, c, ByteClass::Space) {
                    None => None,
                    Some(e) => match spec_u64(s, e) {
                        None => None,
                        Some((len, f)) => {
                            let m = IntervalMap { source_start: src, dest_start: d, len };
                            if m.wf() {
                                Some((m, f))
                            } else {
                                None
                            }
                        },
                    },
                },
            },
        },
    }
}

/// The rule lines after the first of a section: each a line feed and a rule
/// line, as long as both are there.
pub open spec fn map_list_tail(s: Seq<u8>, i: int) -> (Seq<IntervalMap>, int)
    decreases s.len() - i,
{
    if spec_tag(s, i, newline()) {
        match spec_map_line(s, i + 1) {
            None => (Seq::empty(), i),
            // Always true; keeps the recursion visibly finite.
            Some((m, k)) => if i < k <= s.len() {
                (seq![m] + map_list_tail(s, k).0, map_list_tail(s, k).1)
            } else {
                (Seq::empty(), i)
            },
        }
    } else {
        (Seq::empty(), i)
    }
}

/// A section header `<letters>-to-<letters> map:`: where the first label
/// ends and where the second one ends.
pub open spec fn spec_header(s: Seq<u8>, i: int) -> Option<(int, int)> {
    match run1(s, i, ByteClass::Alpha) {
        None => None,
        Some(a) => if spec_tag(s, a, to_tag()) {
            match run1(s, a + 4, ByteClass::Alpha) {
                None => None,
                Some(b) => if spec_tag(s, b, map_tag()) {
                    Some((a, b))
                } else {
                    None
                },
            }
        } else {
            None
        },
    }
}

/// What a section holds: its two labels and its rules.
pub type SectionModel = (Seq<char>, Seq<char>, Seq<IntervalMap>);

/// A section: a header, a line feed, then one or more rule lines separated by
/// line feeds.
pub open spec fn spec_section(s: Seq<u8>, i: int) -> Option<(SectionModel, int)> {
    match spec_header(s, i) {
        None => None,
        Some((a, b)) => if spec_tag(s, b + 5, newline()) {
            match spec_map_line(s, b + 6) {
                None => None,
                Some((m, c)) => Some(
                    (
                        (
                            ascii_chars(s.subrange(i, a)),
                            ascii_chars(s.subrange(a + 4, b)),
                            seq![m] + map_list_tail(s, c).0,
                        ),
                        map_list_tail(s, c).1,
                    ),
                ),
            }
        } else {
            None
        },
    }
}

/// The sections after the first: each a run of blank bytes and a section, as
/// long as both are there.
pub open spec fn section_list_tail(s: Seq<u8>, i: int) -> (Seq<SectionModel>, int)
    decreases s.len() - i,
{
    match run1(s, i, ByteClass::Multispace) {
        None => (Seq::empty(), i),
        Some(j) => match spec_section(s, j) {
            None => (Seq::empty(), i),
            // Always true; keeps the recursion visibly finite.
            Some((m, k)) => if i < k <= s.len() {
                (seq![m] + section_list_tail(s, k).0, section_list_tail(s, k).1)
            } else {
                (Seq::empty(), i)
            },
        },
    }
}

/// The whole almanac: the seed line, a run of blank bytes, one or more
/// sections separated by runs of blank bytes, and one final line feed that
/// ends the text.
pub open spec fn spec_almanac(s: Seq<u8>) -> Option<(Seq<u64>, Seq<SectionModel>)> {
    match spec_seeds(s, 0) {
        None => None,
        Some((seeds, a)) => match run1(s, a, ByteClass::Multispace) {
            None => None,
            Some(b) => match spec_section(s, b) {
                None => None,
                Some((sec, c)) => {
                    let t = section_list_tail(s, c);
                    if spec_tag(s, t.1, newline()) && t.1 + 1 == s.len() {
                        Some((seeds, seq![sec] + t.0))
                    } else {
                        None
                    }
                },
            },
        },
    }
}

/// What a parsed section holds, in the terms of `SectionModel`.
pub open spec fn section_view(sec: MapSection) -> SectionModel {
    (sec.source@, sec.dest@, sec.map@)
}

/// The seed line's numbers.
#[derive(Debug, Clone, PartialEq, Eq)]
pub struct Seeds(pub Vec<u64>);

impl Seeds {
    /// Reads the seed line at `i`.
    pub fn parse_at(s: &[u8], i: usize) -> (r: Option<(Seeds, usize)>)
        requires
            i <= s@.len(),
        ensures
            r is Some <==> spec_seeds(s@, i as int) is Some,
            r matches Some((v, j)) ==> spec_seeds(s@, i as int) == Some((v.0@, j as int)),
    {
        let t: [u8; 6] = [115u8, 101u8, 101u8, 100u8, 115u8, 58u8];
        assert(t@ == seeds_tag());
        if !tag_at(s, i, &t) {
            return None;
        }
        assert(seeds_tag().len() == 6);
        assert(i + 6 <= s.len());
        let j = match scan1(s, i + 6, ByteClass::Space) {
            None => return None,
            Some(j) => j,
        };
        proof {
            lemma_run1_bounds(s@, i + 6, ByteClass::Space);
        }
        match u64_list_at(s, j) {
            None => None,
            Some((v, k)) => Some((Seeds(v), k)),
        }
    }
}

impl IntervalMap {
    /// Reads a rule line at `i`.
    pub fn parse_at(s: &[u8], i: usize) -> (r: Option<(IntervalMap, usize)>)
        requires
            i <= s@.len(),
        ensures
            r is Some <==> spec_map_line(s@, i as int) is Some,
            r matches Some((m, j)) ==> spec_map_line(s@, i as int) == Some((m, j as int)),
            r matches Some((m, j)) ==> m.wf(),
    {
        proof {
            lemma_u64_bounds(s@, i as int);
        }
        let (d, a) = match u64_at(s, i) {
            None => return None,
            Some(x) => x,
        };
        proof {
            lemma_run1_bounds(s@, a as int, ByteClass::Space);
        }
        let b = match scan1(s, a, ByteClass::Space) {
            None => return None,
            Some(b) => b,
        };
        proof {
            lemma_u64_bounds(s@, b as int);
        }
        let (src, c) = match u64_at(s, b) {
            None => return None,
            Some(x) => x,
        };
        proof {
            lemma_run1_bounds(s@, c as int, ByteClass::Space);
        }
        let e = match scan1(s, c, ByteClass::Space) {
            None => return None,
            Some(e) => e,
        };
        let (len, f) = match u64_at(s, e) {
            None => return None,
            Some(x) => x,
        };
        if len == 0 || src > u64::MAX - len + 1 || d > u64::MAX - len + 1 {
            return None;
        }
        Some((IntervalMap { source_start: src, dest_start: d, len }, f))
    }
}

/// Reads one or more rule lines separated by line feeds.
fn map_list_at(s: &[u8], i: usize) -> (r: Option<(Vec<IntervalMap>, usize)>)
    requires
        i <= s@.len(),
    ensures
        r is Some <==> spec_map_line(s@, i as int) is Some,
        r matches Some((v, j)) ==> spec_map_line(s@, i as int) matches Some((m, k)) && v@ == seq![m]
            + map_list_tail(s@, k).0 && j == map_list_tail(s@, k).1,
        r matches Some((v, j)) ==> maps_wf(v@),
{
    let (first, mut p) = match IntervalMap::parse_at(s, i) {
        None => return None,
        Some(x) => x,
    };
    let mut out: Vec<IntervalMap> = Vec::new();
    out.push(first);
    let ghost k0 = p as int;
    proof {
        lemma_map_line_bounds(s@, i as int);
    }
    let nl: [u8; 1] = [10u8];
    assert(nl@ == newline());
    loop
        invariant
            p <= s@.len(),
            nl@ == newline(),
            maps_wf(out@),
            out@ + map_list_tail(s@, p as int).0 == seq![first] + map_list_tail(s@, k0).0,
            map_list_tail(s@, p as int).1 == map_list_tail(s@, k0).1,
        ensures
            maps_wf(out@),
            out@ == seq![first] + map_list_tail(s@, k0).0,
            p as int == map_list_tail(s@, k0).1,
        decreases s@.len() - p,
    {
        proof {
            assert(out@ + Seq::<IntervalMap>::empty() =~= out@);
        }
        if !tag_at(s, p, &nl) {
            break;
        }
        assert(newline().len() == 1);
        assert(p + 1 <= s.len());
        proof {
            lemma_map_line_bounds(s@, p + 1);
        }
        let (m, k) = match IntervalMap::parse_at(s, p + 1) {
            None => break,
            Some(x) => x,
        };
        let ghost before = out@;
        out.push(m);
        proof {
            assert(out@ + map_list_tail(s@, k as int).0 =~= before + (seq![m] + map_list_tail(
                s@,
                k as int,
            ).0));
        }
        p = k;
    }
    Some((out, p))
}

proof fn lemma_map_line_bounds(s: Seq<u8>, i: int)
    requires
        0 <= i <= s.len(),
    ensures
        spec_map_line(s, i) matches Some((m, k)) ==> i < k <= s.len() && m.wf() && s[k - 1] < 128,
{
    lemma_u64_bounds(s, i);
    if let Some((d, a)) = spec_u64(s, i) {
        lemma_run1_bounds(s, a, ByteClass::Space);
        if let Some(b) = run1(s, a, ByteClass::Space) {
            lemma_u64_bounds(s, b);
            if let Some((src, c)) = spec_u64(s, b) {
                lemma_run1_bounds(s, c, ByteClass::Space);
                if let Some(e) = run1(s, c, ByteClass::Space) {
                    lemma_u64_bounds(s, e);
                }
            }
        }
    }
}

/// Reads a section header at `i`: the ends of its two labels.
fn header_at(s: &[u8], i: usize) -> (r: Option<(usize, usize)>)
    requires
        i <= s@.len(),
    ensures
        r is Some <==> spec_header(s@, i as int) is Some,
        r matches Some((a, b)) ==> spec_header(s@, i as int) == Some((a as int, b as int)),
        r matches Some((a, b)) ==> i < a && a + 4 < b && b + 5 <= s@.len(),
{
    proof {
        lemma_run1_bounds(s@, i as int, ByteClass::Alpha);
    }
    let a = match scan1(s, i, ByteClass::Alpha) {
        None => return None,
        Some(a) => a,
    };
    let to: [u8; 4] = [45u8, 116u8, 111u8, 45u8];
    assert(to@ == to_tag());
    if !tag_at(s, a, &to) {
        return None;
    }
    assert(to_tag().len() == 4);
    assert(a + 4 <= s.len());
    proof {
        lemma_run1_bounds(s@, a + 4, ByteClass::Alpha);
    }
    let b = match scan1(s, a + 4, ByteClass::Alpha) {
        None => return None,
        Some(b) => b,
    };
    let mt: [u8; 5] = [32u8, 109u8, 97u8, 112u8, 58u8];
    assert(mt@ == map_tag());
    if !tag_at(s, b, &mt) {
        return None;
    }
    assert(map_tag().len() == 5);
    Some((a, b))
}

impl MapSection {
    /// Reads a section at byte `i` of `text`, whose bytes are `s`.
    pub fn parse_at(text: &str, s: &[u8], i: usize) -> (r: Option<(MapSection, usize)>)
        requires
            s@ == text.spec_bytes(),
            i <= s@.len(),
            i == 0 || s@[i - 1] < 128,
        ensures
            r is Some <==> spec_section(s@, i as int) is Some,
            r matches Some((sec, j)) ==> spec_section(s@, i as int) == Some(
                (section_view(sec), j as int),
            ),
            r matches Some((sec, j)) ==> sec.wf(),
    {
        let (a, b) = match header_at(s, i) {
            None => return None,
            Some(x) => x,
        };
        let nl: [u8; 1] = [10u8];
        assert(nl@ == newline());
        assert(b + 5 <= s.len());
        if !tag_at(s, b + 5, &nl) {
            return None;
        }
        assert(newline().len() == 1);
        assert(b + 6 <= s.len());
        let (map, c) = match map_list_at(s, b + 6) {
            None => return None,
            Some(x) => x,
        };
        proof {
            lemma_header_ascii(s@, i as int);
        }
        let source = ascii_label(text, s, i, a);
        let dest = ascii_label(text, s, a + 4, b);
        Some((MapSection { source, dest, map }, c))
    }
}

/// A header's labels are ASCII letters, and the byte before the second one is
/// the `-` that ends `-to-`.
proof fn lemma_header_ascii(s: Seq<u8>, i: int)
    requires
        0 <= i <= s.len(),
    ensures
        spec_header(s, i) matches Some((a, b)) ==> (forall|k: int|
            i <= k < a ==> #[trigger] s[k] < 128) && (forall|k: int|
            a + 4 <= k < b ==> #[trigger] s[k] < 128) && s[a + 3] == 45,
{
    lemma_run_end(s, i, ByteClass::Alpha);
    if let Some((a, b)) = spec_header(s, i) {
        lemma_run_end(s, a + 4, ByteClass::Alpha);
        assert(s.subrange(a, a + 4)[3] == s[a + 3]);
        assert forall|k: int| i <= k < a implies #[trigger] s[k] < 128 by {
            assert(in_class(ByteClass::Alpha, s[k]));
        }
        assert forall|k: int| a + 4 <= k < b implies #[trigger] s[k] < 128 by {
            assert(in_class(ByteClass::Alpha, s[k]));
        }
    }
}

proof fn lemma_section_bounds(s: Seq<u8>, i: int)
    requires
        0 <= i <= s.len(),
    ensures
        spec_section(s, i) matches Some((m, k)) ==> i < k <= s.len() && s[k - 1] < 128,
{
    lemma_run1_bounds(s, i, ByteClass::Alpha);
    if let Some((a, b)) = spec_header(s, i) {
        lemma_run1_bounds(s, a + 4, ByteClass::Alpha);
        if spec_tag(s, b + 5, newline()) {
            lemma_map_line_bounds(s, b + 6);
            if let Some((m, c)) = spec_map_line(s, b + 6) {
                lemma_map_list_tail_bounds(s, c);
            }
        }
    }
}

proof fn lemma_map_list_tail_bounds(s: Seq<u8>, i: int)
    requires
        0 <= i <= s.len(),
    ensures
        i <= map_list_tail(s, i).1 <= s.len(),
        map_list_tail(s, i).1 == i || s[map_list_tail(s, i).1 - 1] < 128,
    decreases s.len() - i,
{
    if spec_tag(s, i, newline()) {
        lemma_map_line_bounds(s, i + 1);
        if let Some((m, k)) = spec_map_line(s, i + 1) {
            lemma_map_list_tail_bounds(s, k);
        }
    }
}

/// Reads the sections after the first, each after a run of blank bytes, and
/// appends them to `init`.
fn section_list_tail_at(text: &str, s: &[u8], i: usize, init: Vec<MapSection>) -> (r: (
    Vec<MapSection>,
    usize,
))
    requires
        s@ == text.spec_bytes(),
        i <= s@.len(),
        sections_wf(init@),
    ensures
        r.0@.map_values(|x: MapSection| section_view(x)) == init@.map_values(
            |x: MapSection| section_view(x),
        ) + section_list_tail(s@, i as int).0,
        r.1 as int == section_list_tail(s@, i as int).1,
        sections_wf(r.0@),
{
    let mut out: Vec<MapSection> = init;
    let ghost init_view = init@.map_values(|x: MapSection| section_view(x));
    let mut p: usize = i;
    loop
        invariant
            s@ == text.spec_bytes(),
            p <= s@.len(),
            sections_wf(out@),
            out@.map_values(|x: MapSection| section_view(x)) + section_list_tail(s@, p as int).0
                == init_view + section_list_tail(s@, i as int).0,
            section_list_tail(s@, p as int).1 == section_list_tail(s@, i as int).1,
        ensures
            sections_wf(out@),
            out@.map_values(|x: MapSection| section_view(x)) == init_view + section_list_tail(
                s@,
                i as int,
            ).0,
            p as int == section_list_tail(s@, i as int).1,
        decreases s@.len() - p,
    {
        proof {
            assert(out@.map_values(|x: MapSection| section_view(x)) + Seq::<SectionModel>::empty()
                =~= out@.map_values(|x: MapSection| section_view(x)));
            lemma_run1_bounds(s@, p as int, ByteClass::Multispace);
        }
        let j = match scan1(s, p, ByteClass::Multispace) {
            None => break,
            Some(j) => j,
        };
        proof {
            lemma_section_bounds(s@, j as int);
            lemma_run_end(s@, p as int, ByteClass::Multispace);
            assert(in_class(ByteClass::Multispace, s@[j - 1]));
        }
        let (sec, k) = match MapSection::parse_at(text, s, j) {
            None => break,
            Some(x) => x,
        };
        let ghost before = out@;
        out.push(sec);
        proof {
            assert(out@.map_values(|x: MapSection| section_view(x)) =~= before.map_values(
                |x: MapSection| section_view(x),
            ).push(section_view(sec)));
            assert(out@.map_values(|x: MapSection| section_view(x)) + section_list_tail(
                s@,
                k as int,
            ).0 =~= before.map_values(|x: MapSection| section_view(x)) + (seq![section_view(sec)]
                + section_list_tail(s@, k as int).0));
        }
        p = k;
    }
    (out, p)
}

/// What the almanac text holds, when it follows the grammar: the seed
/// numbers and the sections.
pub open spec fn almanac_of(input: &str) -> Option<(Seq<u64>, Seq<SectionModel>)> {
    spec_almanac(input.spec_bytes())
}

/// The seed numbers of a well-formed almanac.
pub open spec fn almanac_seeds(input: &str) -> Seq<u64> {
    match almanac_of(input) {
        Some((seeds, _)) => seeds,
        None => Seq::empty(),
    }
}

/// The rule lists of the sections of a well-formed almanac, in order.
pub open spec fn almanac_rules(input: &str) -> Seq<Seq<IntervalMap>> {
    match almanac_of(input) {
        Some((_, secs)) => model_rules(secs),
        None => Seq::empty(),
    }
}

/// The rule lists of the sections that a text holds.
pub open spec fn model_rules(models: Seq<SectionModel>) -> Seq<Seq<IntervalMap>> {
    models.map_values(|m: SectionModel| m.2)
}

/// Reads a whole almanac; `None` when any part of the text breaks the
/// grammar, a rule is not well formed, or anything is left over.
fn read_almanac(input: &str) -> (r: Option<(Seeds, Vec<MapSection>)>)
    ensures
        r is Some <==> almanac_of(input) is Some,
        r matches Some((seeds, secs)) ==> almanac_of(input) == Some(
            (seeds.0@, secs@.map_values(|x: MapSection| section_view(x))),
        ),
        r matches Some((seeds, secs)) ==> sections_wf(secs@),
{
    let s = input.as_bytes();
    let (seeds, a) = match Seeds::parse_at(s, 0) {
        None => return None,
        Some(x) => x,
    };
    proof {
        lemma_seeds_bounds(s@, 0);
        lemma_run1_bounds(s@, a as int, ByteClass::Multispace);
    }
    let b = match scan1(s, a, ByteClass::Multispace) {
        None => return None,
        Some(b) => b,
    };
    proof {
        lemma_section_bounds(s@, b as int);
        lemma_run_end(s@, a as int, ByteClass::Multispace);
        assert(in_class(ByteClass::Multispace, s@[b - 1]));
    }
    let (first, c) = match MapSection::parse_at(input, s, b) {
        None => return None,
        Some(x) => x,
    };
    let mut init: Vec<MapSection> = Vec::new();
    init.push(first);
    proof {
        lemma_section_list_tail_bounds(s@, c as int);
    }
    let (secs, d) = section_list_tail_at(input, s, c, init);
    assert(newline().len() == 1);
    let nl: [u8; 1] = [10u8];
    assert(nl@ == newline());
    if !tag_at(s, d, &nl) {
        return None;
    }
    assert(d + 1 <= s.len());
    if d + 1 != s.len() {
        return None;
    }
    Some((seeds, secs))
}

/// Whether `input` is a well-formed almanac.
pub fn is_almanac(input: &str) -> (r: bool)
    ensures
        r == almanac_of(input) is Some,
{
    read_almanac(input).is_some()
}

/// Reads a well-formed almanac: its seed numbers and its sections, in the
/// order of the text.
pub fn parse(input: &str) -> (r: (Seeds, Vec<MapSection>))
    requires
        almanac_of(input) is Some,
    ensures
        almanac_of(input) == Some((r.0.0@, r.1@.map_values(|x: MapSection| section_view(x)))),
        sections_wf(r.1@),
{
    match read_almanac(input) {
        Some(x) => x,
        None => unreached(),
    }
}

proof fn lemma_seeds_bounds(s: Seq<u8>, i: int)
    requires
        0 <= i <= s.len(),
    ensures
        spec_seeds(s, i) matches Some((v, k)) ==> i < k <= s.len() && s[k - 1] < 128,
{
    if spec_tag(s, i, seeds_tag()) {
        assert(seeds_tag().len() == 6);
        lemma_run1_bounds(s, i + 6, ByteClass::Space);
        if let Some(j) = run1(s, i + 6, ByteClass::Space) {
            lemma_u64_bounds(s, j);
            if let Some((v, k)) = spec_u64(s, j) {
                lemma_u64_list_tail_bounds(s, k);
            }
        }
    }
}

proof fn lemma_u64_list_tail_bounds(s: Seq<u8>, i: int)
    requires
        0 <= i <= s.len(),
    ensures
        i <= u64_list_tail(s, i).1 <= s.len(),
        u64_list_tail(s, i).1 == i || s[u64_list_tail(s, i).1 - 1] < 128,
    decreases s.len() - i,
{
    lemma_run1_bounds(s, i, ByteClass::Space);
    if let Some(j) = run1(s, i, ByteClass::Space) {
        lemma_u64_bounds(s, j);
        if let Some((v, k)) = spec_u64(s, j) {
            lemma_u64_list_tail_bounds(s, k);
        }
    }
}

proof fn lemma_section_list_tail_bounds(s: Seq<u8>, i: int)
    requires
        0 <= i <= s.len(),
    ensures
        i <= section_list_tail(s, i).1 <= s.len(),
    decreases s.len() - i,
{
    lemma_run1_bounds(s, i, ByteClass::Multispace);
    if let Some(j) = run1(s, i, ByteClass::Multispace) {
        lemma_section_bounds(s, j);
        if let Some((m, k)) = spec_section(s, j) {
            lemma_section_list_tail_bounds(s, k);
        }
    }
}

/// The part of `input` from byte `j` on, where `j` ends the text or follows
/// an ASCII byte.
fn rest_from<'a>(input: &'a str, s: &[u8], j: usize) -> (r: &'a str)
    requires
        s@ == input.spec_bytes(),
        j <= s@.len(),
        j == 0 || j == s@.len() || s@[j - 1] < 128,
    ensures
        r.spec_bytes() == s@.subrange(j as int, s@.len() as int),
{
    sub_str(input, s, j, s.len())
}

impl Seeds {
    /// Reads the seed line at the start of `input`; answers the rest of the
    /// text and the numbers.
    pub fn parse(input: &str) -> (r: Option<(&str, Seeds)>)
        ensures
            r is Some <==> spec_seeds(input.spec_bytes(), 0) is Some,
            r matches Some((rest, seeds)) ==> spec_seeds(input.spec_bytes(), 0) matches Some(
                (v, j),
            ) && seeds.0@ == v && rest.spec_bytes() == input.spec_bytes().subrange(
                j,
                input.spec_bytes().len() as int,
            ),
    {
        let s = input.as_bytes();
        proof {
            lemma_seeds_bounds(s@, 0);
        }
        match Seeds::parse_at(s, 0) {
            None => None,
            Some((seeds, j)) => Some((rest_from(input, s, j), seeds)),
        }
    }
}

impl IntervalMap {
    /// Reads a rule line `dest source len` at the start of `input`; answers
    /// the rest of the text and the rule.
    pub fn parse(input: &str) -> (r: Option<(&str, IntervalMap)>)
        ensures
            r is Some <==> spec_map_line(input.spec_bytes(), 0) is Some,
            r matches Some((rest, m)) ==> spec_map_line(input.spec_bytes(), 0) matches Some(
                (m2, j),
            ) && m == m2 && rest.spec_bytes() == input.spec_bytes().subrange(
                j,
                input.spec_bytes().len() as int,
            ),
    {
        let s = input.as_bytes();
        proof {
            lemma_map_line_bounds(s@, 0);
        }
        match IntervalMap::parse_at(s, 0) {
            None => None,
            Some((m, j)) => Some((rest_from(input, s, j), m)),
        }
    }
}

impl MapSection {
    /// Reads a section header at the start of `input`; answers the rest of
    /// the text and the two labels.
    pub fn parse_header(input: &str) -> (r: Option<(&str, (String, String))>)
        ensures
            r is Some <==> spec_header(input.spec_bytes(), 0) is Some,
            r matches Some((rest, (src, dst))) ==> spec_header(input.spec_bytes(), 0) matches Some(
                (a, b),
            ) && src@ == ascii_chars(input.spec_bytes().subrange(0, a)) && dst@ == ascii_chars(
                input.spec_bytes().subrange(a + 4, b),
            ) && rest.spec_bytes() == input.spec_bytes().subrange(
                b + 5,
                input.spec_bytes().len() as int,
            ),
    {
        let s = input.as_bytes();
        match header_at(s, 0) {
            None => None,
            Some((a, b)) => {
                proof {
                    lemma_header_ascii(s@, 0);
                    assert(s@.subrange(b as int, b + 5)[4] == s@[b + 4]);
                }
                let src = ascii_label(input, s, 0, a);
                let dst = ascii_label(input, s, a + 4, b);
                assert(b + 5 <= s.len());
                Some((rest_from(input, s, b + 5), (src, dst)))
            },
        }
    }

    /// Reads a section at the start of `input`; answers the rest of the text
    /// and the section.
    pub fn parse(input: &str) -> (r: Option<(&str, MapSection)>)
        ensures
            r is Some <==> spec_section(input.spec_bytes(), 0) is Some,
            r matches Some((rest, sec)) ==> spec_section(input.spec_bytes(), 0) matches Some(
                (m, j),
            ) && section_view(sec) == m && rest.spec_bytes() == input.spec_bytes().subrange(
                j,
                input.spec_bytes().len() as int,
            ),
            r matches Some((rest, sec)) ==> sec.wf(),
    {
        let s = input.as_bytes();
        proof {
            lemma_section_bounds(s@, 0);
        }
        match MapSection::parse_at(input, s, 0) {
            None => None,
            Some((sec, j)) => Some((rest_from(input, s, j), sec)),
        }
    }
}

/// The characters that a run of ASCII bytes stands for, one for each byte.
pub open spec fn ascii_chars(bs: Seq<u8>) -> Seq<char> {
    bs.map_values(|b: u8| (b as u32) as char)
}

/// ASCII bytes are valid UTF-8, and decode to one character each.
proof fn lemma_decode_ascii(bs: Seq<u8>)
    requires
        forall|k: int| 0 <= k < bs.len() ==> #[trigger] bs[k] < 128,
    ensures
        valid_utf8(bs),
        decode_utf8(bs) == ascii_chars(bs),
    decreases bs.len(),
{
    if bs.len() > 0 {
        let b = bs[0];
        assert((b & 0x7F) as u32 == b as u32) by (bit_vector)
            requires
                b < 128u8,
        ;
        let rest = bs.subrange(1, bs.len() as int);
        assert forall|k: int| 0 <= k < rest.len() implies #[trigger] rest[k] < 128 by {
            assert(rest[k] == bs[k + 1]);
        }
        lemma_decode_ascii(rest);
        assert(decode_utf8(bs) =~= ascii_chars(bs));
    }
}

/// In valid UTF-8, the position right after an ASCII byte starts a character.
proof fn lemma_boundary_after_ascii(bytes: Seq<u8>, j: int)
    requires
        valid_utf8(bytes),
        0 <= j <= bytes.len(),
        j == 0 || j == bytes.len() || bytes[j - 1] < 128,
    ensures
        is_char_boundary(bytes, j),
{
    is_char_boundary_start_end_of_seq(bytes);
    if 0 < j < bytes.len() {
        is_char_boundary_iff_not_is_continuation_byte(bytes, j - 1);
        valid_utf8_split(bytes, j - 1);
        let t = bytes.subrange(j - 1, bytes.len() as int);
        assert(t[0] == bytes[j - 1]);
        assert(valid_utf8(t));
        let u = t.subrange(1, t.len() as int);
        assert(u =~= bytes.subrange(j, bytes.len() as int));
        assert(valid_utf8(u));
        assert(u[0] == bytes[j]);
        is_char_boundary_iff_not_is_continuation_byte(bytes, j);
    }
}

/// The part of `text` between bytes `i` and `j`, both of which start a
/// character or end the text.
fn sub_str<'a>(text: &'a str, s: &[u8], i: usize, j: usize) -> (r: &'a str)
    requires
        s@ == text.spec_bytes(),
        i <= j <= s@.len(),
        i == 0 || i == s@.len() || s@[i - 1] < 128,
        j == 0 || j == s@.len() || s@[j - 1] < 128,
    ensures
        r.spec_bytes() == s@.subrange(i as int, j as int),
{
    proof {
        encode_utf8_valid_utf8(text@);
        lemma_boundary_after_ascii(s@, i as int);
    }
    let (_, tail) = text.split_at(i);
    proof {
        encode_utf8_valid_utf8(tail@);
        assert(tail.spec_bytes() =~= s@.subrange(i as int, s@.len() as int));
        if j == i {
            is_char_boundary_start_end_of_seq(tail.spec_bytes());
        } else {
            assert(tail.spec_bytes()[j - i - 1] == s@[j - 1]);
            lemma_boundary_after_ascii(tail.spec_bytes(), j - i);
        }
    }
    let (r, _) = tail.split_at(j - i);
    proof {
        assert(r.spec_bytes() =~= s@.subrange(i as int, j as int));
    }
    r
}

/// The ASCII label held by bytes `i` to `j` of `text`, as an owned string.
fn ascii_label(text: &str, s: &[u8], i: usize, j: usize) -> (r: String)
    requires
        s@ == text.spec_bytes(),
        i <= j <= s@.len(),
        i == 0 || s@[i - 1] < 128,
        forall|k: int| i <= k < j ==> #[trigger] s@[k] < 128,
    ensures
        r@ == ascii_chars(s@.subrange(i as int, j as int)),
{
    proof {
        if j > i {
            assert(s@[j - 1] < 128);
        }
    }
    let part = sub_str(text, s, i, j);
    proof {
        let bs = s@.subrange(i as int, j as int);
        assert forall|k: int| 0 <= k < bs.len() implies #[trigger] bs[k] < 128 by {
            assert(bs[k] == s@[i + k]);
        }
        lemma_decode_ascii(bs);
        encode_utf8_decode_utf8(part@);
    }
    part.to_owned()
}

} // verus!
