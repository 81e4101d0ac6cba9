use rayon::iter::{IntoParallelRefIterator, ParallelIterator};
use vstd::prelude::*;
use crate::parse::{almanac_of, almanac_rules, almanac_seeds, model_rules, parse, section_view};
use crate::resolve::{pipeline_resolve, resolve_all, rules_of, sections_wf, IntervalMap, MapSection};

verus! {

/// How many identifiers one unit of parallel work enumerates at most.
pub const CHUNK_LEN: u64 = 65536;

/// The smaller of two optional values, where `None` stands for "nothing seen".
pub open spec fn omin(a: Option<u64>, b: Option<u64>) -> Option<u64> {
    match (a, b) {
        (None, _) => b,
        (_, None) => a,
        (Some(x), Some(y)) => Some(if x <= y { x } else { y }),
    }
}

/// The lowest location of the listed seeds; `None` for no seed.
pub open spec fn single_min(stages: Seq<Seq<IntervalMap>>, seeds: Seq<u64>) -> Option<u64>
    decreases seeds.len(),
{
    if seeds.len() == 0 {
        None
    } else {
        omin(
            single_min(stages, seeds.drop_last()),
            Some(pipeline_resolve(stages, seeds.last())),
        )
    }
}

/// The lowest location of the `n` seeds `start, start + 1, ...`; `None` when `n` is 0.
pub open spec fn range_min(stages: Seq<Seq<IntervalMap>>, start: u64, n: nat) -> Option<u64>
    decreases n,
{
    if n == 0 {
        None
    } else {
        omin(
            range_min(stages, start, (n - 1) as nat),
            Some(pipeline_resolve(stages, (start + n - 1) as u64)),
        )
    }
}

/// The end `start + len` of a `(start, len)` pair is itself a `u64`.
pub open spec fn range_fits(r: (u64, u64)) -> bool {
    r.0 as int + r.1 as int <= u64::MAX
}

pub open spec fn ranges_fit(ranges: Seq<(u64, u64)>) -> bool {
    forall|i: int| 0 <= i < ranges.len() ==> range_fits(#[trigger] ranges[i])
}

/// The lowest location over every identifier of every `(start, len)` range.
pub open spec fn ranges_min(stages: Seq<Seq<IntervalMap>>, ranges: Seq<(u64, u64)>) -> Option<u64>
    decreases ranges.len(),
{
    if ranges.len() == 0 {
        None
    } else {
        omin(
            ranges_min(stages, ranges.drop_last()),
            range_min(stages, ranges.last().0, ranges.last().1 as nat),
        )
    }
}

/// The seed list read as consecutive `(start, len)` pairs.
pub open spec fn pairs_of(seeds: Seq<u64>) -> Seq<(u64, u64)> {
    Seq::new((seeds.len() / 2) as nat, |i: int| (seeds[2 * i], seeds[2 * i + 1]))
}

/// The pairs of a seed list, when it has an even length and the end of each
/// pair is a `u64`.
pub open spec fn seed_pairs(seeds: Seq<u64>) -> Option<Seq<(u64, u64)>> {
    if seeds.len() % 2 == 0 && ranges_fit(pairs_of(seeds)) {
        Some(pairs_of(seeds))
    } else {
        None
    }
}

/// Why a seed list cannot be read as ranges.
#[derive(Debug, Clone, Copy, PartialEq, Eq, Structural)]
pub enum RangeError {
    /// The list has an odd number of values, so they do not pair up.
    OddSeedCount,
    /// The end `start + len` of some pair is past the largest `u64`.
    RangeOverflow,
}

/// The lowest location of a seed list read one identifier at a time.
pub fn solve_single(sections: &Vec<MapSection>, seeds: &Vec<u64>) -> (r: Option<u64>)
    requires
        sections_wf(sections@),
    ensures
        r == single_min(rules_of(sections@), seeds@),
{
    let mut best: Option<u64> = None;
    let mut i: usize = 0;
    while i < seeds.len()
        invariant
            0 <= i <= seeds@.len(),
            sections_wf(sections@),
            best == single_min(rules_of(sections@), seeds@.take(i as int)),
        decreases seeds@.len() - i,
    {
        let loc = resolve_all(sections, seeds[i]);
        proof {
            assert(seeds@.take(i + 1).drop_last() =~= seeds@.take(i as int));
        }
        best = min_of(best, loc);
        i = i + 1;
    }
    proof {
        assert(seeds@.take(i as int) =~= seeds@);
    }
    best
}

/// Folds one more value into a running minimum.
fn min_of(best: Option<u64>, v: u64) -> (r: Option<u64>)
    ensures
        r == omin(best, Some(v)),
{
    match best {
        Some(b) if b <= v => Some(b),
        _ => Some(v),
    }
}

/// The lowest location of the `len` identifiers from `start` on, visited one by one.
pub fn min_in_range(sections: &Vec<MapSection>, start: u64, len: u64) -> (r: Option<u64>)
    requires
        sections_wf(sections@),
        range_fits((start, len)),
    ensures
        r == range_min(rules_of(sections@), start, len as nat),
{
    let mut best: Option<u64> = None;
    let mut i: u64 = 0;
    while i < len
        invariant
            i <= len,
            range_fits((start, len)),
            sections_wf(sections@),
            best == range_min(rules_of(sections@), start, i as nat),
        decreases len - i,
    {
        let loc = resolve_all(sections, start + i);
        best = min_of(best, loc);
        i = i + 1;
    }
    best
}

/// Reads the seed list as `(start, len)` pairs; `None` when its length is odd
/// or the end `start + len` of a pair is past the largest `u64`.
pub fn seed_ranges(seeds: &Vec<u64>) -> (r: Option<Vec<(u64, u64)>>)
    ensures
        r matches Some(v) <==> seed_pairs(seeds@) is Some,
        r matches Some(v) ==> v@ == pairs_of(seeds@),
{
    if seeds.len() % 2 != 0 {
        return None;
    }
    let mut out: Vec<(u64, u64)> = Vec::new();
    let mut i: usize = 0;
    while i < seeds.len() / 2
        invariant
            seeds@.len() % 2 == 0,
            0 <= i <= seeds@.len() / 2,
            out@ == pairs_of(seeds@).take(i as int),
            ranges_fit(out@),
        decreases seeds@.len() / 2 - i,
    {
        let start = seeds[2 * i];
        let len = seeds[2 * i + 1];
        proof {
            assert(pairs_of(seeds@)[i as int] == (start, len));
        }
        if start > u64::MAX - len {
            proof {
                assert(!range_fits(pairs_of(seeds@)[i as int]));
            }
            return None;
        }
        out.push((start, len));
        i = i + 1;
        proof {
            assert(out@ =~= pairs_of(seeds@).take(i as int));
        }
    }
    proof {
        assert(out@ =~= pairs_of(seeds@));
    }
    Some(out)
}

/// The running minimum is associative, commutative and idempotent.
pub proof fn omin_laws(a: Option<u64>, b: Option<u64>, c: Option<u64>)
    ensures
        omin(omin(a, b), c) == omin(a, omin(b, c)),
        omin(a, b) == omin(b, a),
        omin(a, a) == a,
        omin(a, None) == a,
{
}

/// Enumerating `a + b` identifiers from `start` gives the smaller of the minima
/// of the first `a` and of the `b` after them.
pub proof fn range_split(stages: Seq<Seq<IntervalMap>>, start: u64, a: nat, b: nat)
    requires
        start + a + b <= u64::MAX,
    ensures
        range_min(stages, start, a + b) == omin(
            range_min(stages, start, a),
            range_min(stages, (start + a) as u64, b),
        ),
    decreases b,
{
    if b > 0 {
        range_split(stages, start, a, (b - 1) as nat);
        assert((start + (a + b) - 1) as u64 == ((start + a) as u64 + b - 1) as u64);
        assert(range_min(stages, start, a + b) == omin(
            range_min(stages, start, (a + b - 1) as nat),
            Some(pipeline_resolve(stages, (start + (a + b) - 1) as u64)),
        ));
        omin_laws(
            range_min(stages, start, a),
            range_min(stages, (start + a) as u64, (b - 1) as nat),
            Some(pipeline_resolve(stages, (start + (a + b) - 1) as u64)),
        );
    }
}

/// The minimum over a concatenation of range lists combines the minima of the parts.
pub proof fn ranges_concat(stages: Seq<Seq<IntervalMap>>, r1: Seq<(u64, u64)>, r2: Seq<(u64, u64)>)
    ensures
        ranges_min(stages, r1 + r2) == omin(ranges_min(stages, r1), ranges_min(stages, r2)),
    decreases r2.len(),
{
    if r2.len() == 0 {
        assert(r1 + r2 =~= r1);
    } else {
        assert((r1 + r2).drop_last() =~= r1 + r2.drop_last());
        assert((r1 + r2).last() == r2.last());
        ranges_concat(stages, r1, r2.drop_last());
        let l = r2.last();
        omin_laws(
            ranges_min(stages, r1),
            ranges_min(stages, r2.drop_last()),
            range_min(stages, l.0, l.1 as nat),
        );
    }
}

/// Each seed taken as a range of length one gives the same minimum as the
/// seeds taken one at a time.
pub proof fn singleton_ranges_agree(stages: Seq<Seq<IntervalMap>>, seeds: Seq<u64>)
    ensures
        ranges_min(stages, seeds.map_values(|s: u64| (s, 1u64))) == single_min(stages, seeds),
    decreases seeds.len(),
{
    let rs = seeds.map_values(|s: u64| (s, 1u64));
    if seeds.len() > 0 {
        assert(rs.drop_last() =~= seeds.drop_last().map_values(|s: u64| (s, 1u64)));
        singleton_ranges_agree(stages, seeds.drop_last());
        let s = seeds.last();
        assert(rs.last() == (s, 1u64));
        assert(range_min(stages, s, 0) == None::<u64>);
        assert(range_min(stages, s, 1) == Some(pipeline_resolve(stages, s)));
    }
}

/// A seed list written as `s0, 1, s1, 1, ...` pairs up into the ranges
/// `(s0, 1), (s1, 1), ...`, and the minimum over those ranges is the minimum
/// over the seeds taken one at a time; a seed must be below the largest `u64`
/// for its range's end to be one.
pub proof fn mode_a_b_agree(stages: Seq<Seq<IntervalMap>>, seeds: Seq<u64>, flat: Seq<u64>)
    requires
        flat.len() == 2 * seeds.len(),
        forall|i: int| 0 <= i < seeds.len() ==> #[trigger] flat[2 * i] == seeds[i] && flat[2 * i + 1] == 1,
        forall|i: int| 0 <= i < seeds.len() ==> #[trigger] seeds[i] < u64::MAX,
    ensures
        seed_pairs(flat) == Some(seeds.map_values(|s: u64| (s, 1u64))),
        ranges_min(stages, pairs_of(flat)) == single_min(stages, seeds),
{
    let rs = seeds.map_values(|s: u64| (s, 1u64));
    assert forall|i: int| 0 <= i < rs.len() implies #[trigger] pairs_of(flat)[i] == rs[i] by {
        assert(flat[2 * i] == seeds[i]);
    }
    assert(pairs_of(flat) =~= rs);
    assert(flat.len() % 2 == 0);
    assert forall|i: int| 0 <= i < rs.len() implies range_fits(#[trigger] rs[i]) by {
        assert(seeds[i] < u64::MAX);
    }
    singleton_ranges_agree(stages, seeds);
}

/// `chunks` cuts the `len` identifiers from `start` into consecutive pieces,
/// in order, with nothing left out.
pub open spec fn tiles(chunks: Seq<(u64, u64)>, start: int, len: int) -> bool
    decreases chunks.len(),
{
    if chunks.len() == 0 {
        len == 0
    } else {
        &&& chunks[0].0 == start
        &&& chunks[0].1 <= len
        &&& tiles(chunks.drop_first(), start + chunks[0].1, len - chunks[0].1)
    }
}

/// However one range is cut into consecutive pieces, the smallest of the
/// pieces' minima is the minimum over the whole range.
pub proof fn partition_invariance(
    stages: Seq<Seq<IntervalMap>>,
    chunks: Seq<(u64, u64)>,
    start: u64,
    len: u64,
)
    requires
        range_fits((start, len)),
        tiles(chunks, start as int, len as int),
    ensures
        ranges_min(stages, chunks) == range_min(stages, start, len as nat),
    decreases chunks.len(),
{
    if chunks.len() > 0 {
        let c = chunks[0];
        let rest = chunks.drop_first();
        partition_invariance(stages, rest, (start + c.1) as u64, (len - c.1) as u64);
        range_split(stages, start, c.1 as nat, (len - c.1) as nat);
        assert(chunks =~= seq![c] + rest);
        ranges_concat(stages, seq![c], rest);
        assert(seq![c].drop_last() =~= Seq::<(u64, u64)>::empty());
        assert(ranges_min(stages, seq![c]) == omin(
            ranges_min(stages, Seq::<(u64, u64)>::empty()),
            range_min(stages, c.0, c.1 as nat),
        ));
        assert(((start + c.1) as u64) as int == start + c.1);
    } else {
        assert(range_min(stages, start, len as nat) == None::<u64>);
    }
}

/// Cuts every range into consecutive pieces of at most `CHUNK_LEN`
/// identifiers, none empty, keeping the minimum over all of them.
pub fn split_into_chunks(ranges: &Vec<(u64, u64)>) -> (r: Vec<(u64, u64)>)
    requires
        ranges_fit(ranges@),
    ensures
        ranges_fit(r@),
        forall|i: int| 0 <= i < r@.len() ==> 0 < (#[trigger] r@[i]).1 <= CHUNK_LEN,
        forall|st: Seq<Seq<IntervalMap>>| #[trigger]
            ranges_min(st, r@) == ranges_min(st, ranges@),
{
    let mut out: Vec<(u64, u64)> = Vec::new();
    let mut i: usize = 0;
    while i < ranges.len()
        invariant
            0 <= i <= ranges@.len(),
            ranges_fit(ranges@),
            ranges_fit(out@),
            forall|j: int| 0 <= j < out@.len() ==> 0 < (#[trigger] out@[j]).1 <= CHUNK_LEN,
            forall|st: Seq<Seq<IntervalMap>>| #[trigger]
                ranges_min(st, out@) == ranges_min(st, ranges@.take(i as int)),
        decreases ranges@.len() - i,
    {
        let (start, len) = ranges[i];
        assert(range_fits(ranges@[i as int]));
        let mut off: u64 = 0;
        while off < len
            invariant
                off <= len,
                start + len <= u64::MAX,
                ranges_fit(out@),
                forall|j: int| 0 <= j < out@.len() ==> 0 < (#[trigger] out@[j]).1 <= CHUNK_LEN,
                forall|st: Seq<Seq<IntervalMap>>| #[trigger]
                    ranges_min(st, out@) == omin(
                        ranges_min(st, ranges@.take(i as int)),
                        range_min(st, start, off as nat),
                    ),
            decreases len - off,
        {
            let k: u64 = if len - off < CHUNK_LEN {
                len - off
            } else {
                CHUNK_LEN
            };
            let ghost prev = out@;
            out.push((start + off, k));
            proof {
                assert(out@.drop_last() =~= prev);
                assert forall|st: Seq<Seq<IntervalMap>>| #[trigger]
                    ranges_min(st, out@) == omin(
                        ranges_min(st, ranges@.take(i as int)),
                        range_min(st, start, (off + k) as nat),
                    ) by {
                    assert(ranges_min(st, prev) == omin(
                        ranges_min(st, ranges@.take(i as int)),
                        range_min(st, start, off as nat),
                    ));
                    assert(out@.last() == ((start + off) as u64, k));
                    assert(ranges_min(st, out@) == omin(
                        ranges_min(st, prev),
                        range_min(st, (start + off) as u64, k as nat),
                    ));
                    range_split(st, start, off as nat, k as nat);
                    omin_laws(
                        ranges_min(st, ranges@.take(i as int)),
                        range_min(st, start, off as nat),
                        range_min(st, (start + off) as u64, k as nat),
                    );
                }
            }
            off = off + k;
        }
        proof {
            assert(ranges@.take(i + 1).drop_last() =~= ranges@.take(i as int));
            assert(ranges@.take(i + 1).last() == (start, len));
        }
        i = i + 1;
    }
    proof {
        assert(ranges@.take(i as int) =~= ranges@);
    }
    out
}

/// Relies on rayon's `par_iter`, `filter_map` and `min`: every piece is
/// enumerated on the thread pool, and the result is the smallest value that the
/// closure handed back, `None` where it handed back none. The closure is
/// `min_in_range`, so that value is the minimum over every piece.
#[verifier::external_body]
fn par_chunks_min(sections: &Vec<MapSection>, chunks: &Vec<(u64, u64)>) -> (r: Option<u64>)
    requires
        sections_wf(sections@),
        ranges_fit(chunks@),
    ensures
        r == ranges_min(rules_of(sections@), chunks@),
{
    chunks.par_iter().filter_map(|c| min_in_range(sections, c.0, c.1)).min()
}

/// The lowest location over every identifier of the ranges that the seed list
/// describes as `(start, len)` pairs, enumerated in parallel pieces.
pub fn solve_ranged(sections: &Vec<MapSection>, seeds: &Vec<u64>) -> (r: Result<
    Option<u64>,
    RangeError,
>)
    requires
        sections_wf(sections@),
    ensures
        seeds@.len() % 2 == 1 <==> r == Err::<Option<u64>, RangeError>(RangeError::OddSeedCount),
        seeds@.len() % 2 == 0 && !ranges_fit(pairs_of(seeds@)) <==> r == Err::<
            Option<u64>,
            RangeError,
        >(RangeError::RangeOverflow),
        seed_pairs(seeds@) is Some ==> r == Ok::<Option<u64>, RangeError>(
            ranges_min(rules_of(sections@), pairs_of(seeds@)),
        ),
{
    if seeds.len() % 2 != 0 {
        return Err(RangeError::OddSeedCount);
    }
    match seed_ranges(seeds) {
        None => Err(RangeError::RangeOverflow),
        Some(ranges) => {
            let chunks = split_into_chunks(&ranges);
            let m = par_chunks_min(sections, &chunks);
            Ok(m)
        },
    }
}

/// The sections' rule lists, read back from what the text holds.
proof fn lemma_rules_of_model(secs: Seq<MapSection>)
    ensures
        rules_of(secs) == model_rules(secs.map_values(|x: MapSection| section_view(x))),
{
    assert(rules_of(secs) =~= model_rules(secs.map_values(|x: MapSection| section_view(x))));
}

/// The lowest location of the seeds of a well-formed almanac, each seed
/// taken alone.
pub fn part_one(input: &str) -> (r: Option<u64>)
    requires
        almanac_of(input) is Some,
    ensures
        r == single_min(almanac_rules(input), almanac_seeds(input)),
        r is Some,
{
    let (seeds, sections) = parse(input);
    proof {
        lemma_rules_of_model(sections@);
        lemma_single_min_some(rules_of(sections@), seeds.0@);
    }
    solve_single(&sections, &seeds.0)
}

/// A seed list with at least one seed has a lowest location.
proof fn lemma_single_min_some(stages: Seq<Seq<IntervalMap>>, seeds: Seq<u64>)
    requires
        seeds.len() > 0,
    ensures
        single_min(stages, seeds) is Some,
{
}

/// Whether the seed numbers of a well-formed almanac pair up into
/// `(start, len)` ranges whose ends are `u64` values.
pub fn seeds_pair_up(input: &str) -> (r: bool)
    requires
        almanac_of(input) is Some,
    ensures
        r == seed_pairs(almanac_seeds(input)) is Some,
{
    let (seeds, _) = parse(input);
    seed_ranges(&seeds.0).is_some()
}

/// The lowest location over every identifier of the seed ranges of a
/// well-formed almanac whose seed numbers pair up as `(start, len)`; `None`
/// only when the ranges are all empty.
pub fn part_two(input: &str) -> (r: Option<u64>)
    requires
        almanac_of(input) is Some,
        seed_pairs(almanac_seeds(input)) is Some,
    ensures
        r == ranges_min(almanac_rules(input), pairs_of(almanac_seeds(input))),
{
    let (seeds, sections) = parse(input);
    proof {
        lemma_rules_of_model(sections@);
    }
    match solve_ranged(&sections, &seeds.0) {
        Ok(m) => m,
        Err(_) => unreached(),
    }
}

/// Replacing one range `(start, a + b)` of a list by the two ranges
/// `(start, a)` and `(start + a, b)` keeps the minimum over the list.
pub proof fn split_pair_keeps_minimum(
    stages: Seq<Seq<IntervalMap>>,
    before: Seq<(u64, u64)>,
    after: Seq<(u64, u64)>,
    start: u64,
    a: u64,
    b: u64,
)
    requires
        start + a + b <= u64::MAX,
    ensures
        ranges_min(stages, before + seq![(start, (a + b) as u64)] + after) == ranges_min(
            stages,
            before + seq![(start, a), ((start + a) as u64, b)] + after,
        ),
{
    let one = seq![(start, (a + b) as u64)];
    let two = seq![(start, a), ((start + a) as u64, b)];
    ranges_concat(stages, before + one, after);
    ranges_concat(stages, before, one);
    ranges_concat(stages, before + two, after);
    ranges_concat(stages, before, two);
    assert(one.drop_last() =~= Seq::<(u64, u64)>::empty());
    assert(two.drop_last() =~= seq![(start, a)]);
    assert(seq![(start, a)].drop_last() =~= Seq::<(u64, u64)>::empty());
    assert(one.last() == (start, (a + b) as u64));
    assert(two.last() == ((start + a) as u64, b));
    assert(ranges_min(stages, one) == omin(
        ranges_min(stages, Seq::<(u64, u64)>::empty()),
        range_min(stages, start, (a + b) as nat),
    ));
    assert(ranges_min(stages, seq![(start, a)]) == omin(
        ranges_min(stages, Seq::<(u64, u64)>::empty()),
        range_min(stages, start, a as nat),
    ));
    assert(ranges_min(stages, two) == omin(
        ranges_min(stages, seq![(start, a)]),
        range_min(stages, (start + a) as u64, b as nat),
    ));
    range_split(stages, start, a as nat, b as nat);
    omin_laws(
        None,
        range_min(stages, start, a as nat),
        range_min(stages, (start + a) as u64, b as nat),
    );
}

} // verus!
