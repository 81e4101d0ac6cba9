use vstd::prelude::*;

verus! {

/// One rule of a section: the half-open source interval
/// `[source_start, source_start + len)` is sent onto
/// `[dest_start, dest_start + len)` by a constant offset.
#[derive(Debug, Clone, Copy, PartialEq, Eq, Structural)]
pub struct IntervalMap {
    pub source_start: u64,
    pub dest_start: u64,
    pub len: u64,
}

/// The largest `u64` plus one: the end of a half-open interval may reach it.
pub open spec fn u64_end() -> int {
    u64::MAX as int + 1
}

impl IntervalMap {
    /// A rule is well formed when it covers at least one value and both of its
    /// intervals are made of `u64` values.
    pub open spec fn wf(self) -> bool {
        &&& self.len > 0
        &&& self.source_start as int + self.len as int <= u64_end()
        &&& self.dest_start as int + self.len as int <= u64_end()
    }

    /// Whether `v` lies in the source interval.
    pub open spec fn covers(self, v: int) -> bool {
        self.source_start <= v < self.source_start as int + self.len as int
    }

    /// Where the rule sends a covered value.
    pub open spec fn shift(self, v: int) -> int {
        v - self.source_start as int + self.dest_start as int
    }

    pub open spec fn spec_process(self, v: u64) -> Option<u64> {
        if self.covers(v as int) {
            Some(self.shift(v as int) as u64)
        } else {
            None
        }
    }

    /// Translates `val` when the rule covers it, and answers `None` otherwise.
    pub fn process(&self, val: u64) -> (r: Option<u64>)
        requires
            self.wf(),
        ensures
            r == self.spec_process(val),
            self.covers(val as int) ==> r == Some(self.shift(val as int) as u64)
                && r->0 as int == self.shift(val as int),
            !self.covers(val as int) ==> r is None,
    {
        if val >= self.source_start && val - self.source_start < self.len {
            Some(val - self.source_start + self.dest_start)
        } else {
            None
        }
    }
}

/// One category-to-category translation: its rules in the order of the text.
#[derive(Debug, Clone, PartialEq, Eq)]
pub struct MapSection {
    pub source: String,
    pub dest: String,
    pub map: Vec<IntervalMap>,
}

/// Every rule of the list is well formed.
pub open spec fn maps_wf(maps: Seq<IntervalMap>) -> bool {
    forall|i: int| 0 <= i < maps.len() ==> #[trigger] maps[i].wf()
}

/// The first rule of the list that covers `v` decides; with none, `v` is kept.
pub open spec fn stage_resolve(maps: Seq<IntervalMap>, v: u64) -> u64
    decreases maps.len(),
{
    if maps.len() == 0 {
        v
    } else {
        match maps[0].spec_process(v) {
            Some(w) => w,
            None => stage_resolve(maps.drop_first(), v),
        }
    }
}

impl MapSection {
    pub open spec fn wf(self) -> bool {
        maps_wf(self.map@)
    }

    pub open spec fn spec_process(self, v: u64) -> u64 {
        stage_resolve(self.map@, v)
    }

    /// Translates `val` by the first rule that covers it, or keeps it.
    pub fn process(&self, val: u64) -> (r: u64)
        requires
            self.wf(),
        ensures
            r == self.spec_process(val),
    {
        let mut i: usize = 0;
        proof {
            assert(self.map@.skip(0) =~= self.map@);
        }
        while i < self.map.len()
            invariant
                0 <= i <= self.map@.len(),
                maps_wf(self.map@),
                stage_resolve(self.map@, val) == stage_resolve(self.map@.skip(i as int), val),
            decreases self.map@.len() - i,
        {
            let m = &self.map[i];
            proof {
                lemma_stage_step(self.map@, i as int, val);
            }
            match m.process(val) {
                Some(w) => {
                    return w;
                },
                None => {},
            }
            i = i + 1;
        }
        proof {
            assert(self.map@.skip(i as int).len() == 0);
        }
        val
    }
}

/// Resolving from position `i` of a list looks at rule `i` first.
proof fn lemma_stage_step(maps: Seq<IntervalMap>, i: int, v: u64)
    requires
        0 <= i < maps.len(),
    ensures
        stage_resolve(maps.skip(i), v) == match maps[i].spec_process(v) {
            Some(w) => w,
            None => stage_resolve(maps.skip(i + 1), v),
        },
{
    assert(maps.skip(i)[0] == maps[i]);
    assert(maps.skip(i).drop_first() =~= maps.skip(i + 1));
}

/// Every section is well formed.
pub open spec fn sections_wf(stages: Seq<MapSection>) -> bool {
    forall|i: int| 0 <= i < stages.len() ==> #[trigger] stages[i].wf()
}

/// The rule lists of the sections, in order.
pub open spec fn rules_of(sections: Seq<MapSection>) -> Seq<Seq<IntervalMap>> {
    sections.map_values(|sec: MapSection| sec.map@)
}

/// `v` threaded through every stage, first to last; a stage is a rule list.
pub open spec fn pipeline_resolve(stages: Seq<Seq<IntervalMap>>, v: u64) -> u64
    decreases stages.len(),
{
    if stages.len() == 0 {
        v
    } else {
        pipeline_resolve(stages.drop_first(), stage_resolve(stages[0], v))
    }
}

/// Threads `val` through every section in order, each taking the previous result.
pub fn resolve_all(sections: &Vec<MapSection>, val: u64) -> (r: u64)
    requires
        sections_wf(sections@),
    ensures
        r == pipeline_resolve(rules_of(sections@), val),
{
    let ghost stages = rules_of(sections@);
    let mut cur: u64 = val;
    let mut i: usize = 0;
    proof {
        assert(stages.skip(0) =~= stages);
    }
    while i < sections.len()
        invariant
            0 <= i <= sections@.len(),
            stages == rules_of(sections@),
            sections_wf(sections@),
            pipeline_resolve(stages, val) == pipeline_resolve(stages.skip(i as int), cur),
        decreases sections@.len() - i,
    {
        proof {
            assert(stages.skip(i as int)[0] == sections@[i as int].map@);
            assert(stages.skip(i as int).drop_first() =~= stages.skip(i + 1));
        }
        cur = sections[i].process(cur);
        i = i + 1;
    }
    proof {
        assert(stages.skip(i as int).len() == 0);
    }
    cur
}

/// A section in which no rule covers `v` leaves `v` unchanged.
pub proof fn stage_identity_fallback(maps: Seq<IntervalMap>, v: u64)
    requires
        forall|i: int| 0 <= i < maps.len() ==> !(#[trigger] maps[i]).covers(v as int),
    ensures
        stage_resolve(maps, v) == v,
    decreases maps.len(),
{
    if maps.len() > 0 {
        assert(!maps[0].covers(v as int));
        assert forall|i: int| 0 <= i < maps.drop_first().len() implies !(
        #[trigger] maps.drop_first()[i]).covers(v as int) by {
            assert(maps.drop_first()[i] == maps[i + 1]);
        }
        stage_identity_fallback(maps.drop_first(), v);
    }
}

/// Where two rules `i < j` of a section both cover `v`, and no rule before `i`
/// does, the section translates `v` by rule `i`.
pub proof fn stage_first_match_wins(maps: Seq<IntervalMap>, i: int, j: int, v: u64)
    requires
        0 <= i < j < maps.len(),
        maps[i].covers(v as int),
        maps[j].covers(v as int),
        forall|k: int| 0 <= k < i ==> !(#[trigger] maps[k]).covers(v as int),
    ensures
        Some(stage_resolve(maps, v)) == maps[i].spec_process(v),
        maps[i].wf() ==> stage_resolve(maps, v) as int == maps[i].shift(v as int),
    decreases i,
{
    if i > 0 {
        let rest = maps.drop_first();
        assert(!maps[0].covers(v as int));
        assert(rest[i - 1] == maps[i]);
        assert(rest[j - 1] == maps[j]);
        assert forall|k: int| 0 <= k < i - 1 implies !(#[trigger] rest[k]).covers(v as int) by {
            assert(rest[k] == maps[k + 1]);
        }
        stage_first_match_wins(rest, i - 1, j - 1, v);
    }
}

/// Running two lists of stages one after the other is running their
/// concatenation.
pub proof fn pipeline_concat(s1: Seq<Seq<IntervalMap>>, s2: Seq<Seq<IntervalMap>>, v: u64)
    ensures
        pipeline_resolve(s1 + s2, v) == pipeline_resolve(s2, pipeline_resolve(s1, v)),
    decreases s1.len(),
{
    if s1.len() == 0 {
        assert(s1 + s2 =~= s2);
    } else {
        assert((s1 + s2)[0] == s1[0]);
        assert((s1 + s2).drop_first() =~= s1.drop_first() + s2);
        pipeline_concat(s1.drop_first(), s2, stage_resolve(s1[0], v));
    }
}

/// The pipeline is the left fold of the stages' own translations, in the
/// order in which they were declared.
pub proof fn pipeline_is_sequential_fold(stages: Seq<Seq<IntervalMap>>, v: u64)
    ensures
        pipeline_resolve(stages, v) == stages.fold_left(
            v,
            |acc: u64, maps: Seq<IntervalMap>| stage_resolve(maps, acc),
        ),
    decreases stages.len(),
{
    if stages.len() > 0 {
        let init = stages.drop_last();
        let last = stages.last();
        pipeline_is_sequential_fold(init, v);
        pipeline_concat(init, seq![last], v);
        assert(init + seq![last] =~= stages);
        let w = pipeline_resolve(init, v);
        assert(seq![last].drop_first() =~= Seq::<Seq<IntervalMap>>::empty());
        assert(pipeline_resolve(seq![last], w) == pipeline_resolve(
            Seq::<Seq<IntervalMap>>::empty(),
            stage_resolve(last, w),
        ));
    }
}

} // verus!
