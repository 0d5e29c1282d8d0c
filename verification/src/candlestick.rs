//! The candlestick pattern table and the compressed per-bar pattern output.
//!
//! Unlike every other indicator, candlestick detection yields, per bar, zero
//! or more named patterns. That output is flattened into a compressed sparse
//! row layout over integer pattern ids:
//!
//! - the pattern table lists every detectable pattern once, sorted by the
//!   pattern's short name (stably, so that ties keep registry order); a
//!   pattern's id is its position in that order;
//! - `bar_offsets` has one entry more than there are bars, and the patterns
//!   detected on bar `i` are `pattern_ids[bar_offsets[i]..bar_offsets[i + 1]]`;
//!   a bar without any pattern yields an empty range.
//!
//! Patterns are identified by an integer key, the one the core registry
//! gives them; the table maps keys to ids.
use vstd::prelude::*;

use crate::common::CIndicatorError;
use crate::lex::{lemma_lex_le_antisym, lemma_lex_le_refl, lemma_lex_le_total, lemma_lex_le_trans, lex_le, lex_le_bytes};

verus! {

/// Direction that a candlestick pattern forecasts.
#[derive(Clone, Copy, Debug, PartialEq, Eq, Structural)]
pub enum CForecastType {
    BearishReversal,
    BullishReversal,
    BearishContinuation,
    BullishContinuation,
    BearishReversalOrContinuation,
    BullishReversalOrContinuation,
}

impl CForecastType {
    /// The integer that stands for this forecast at the C boundary.
    pub open spec fn spec_code(self) -> i32 {
        match self {
            CForecastType::BearishReversal => 0,
            CForecastType::BullishReversal => 1,
            CForecastType::BearishContinuation => 2,
            CForecastType::BullishContinuation => 3,
            CForecastType::BearishReversalOrContinuation => 4,
            CForecastType::BullishReversalOrContinuation => 5,
        }
    }

    pub fn code(&self) -> (c: i32)
        ensures
            c == self.spec_code(),
    {
        match self {
            CForecastType::BearishReversal => 0,
            CForecastType::BullishReversal => 1,
            CForecastType::BearishContinuation => 2,
            CForecastType::BullishContinuation => 3,
            CForecastType::BearishReversalOrContinuation => 4,
            CForecastType::BullishReversalOrContinuation => 5,
        }
    }
}

/// The forecast filter that a C integer selects: `0..=5` select a forecast,
/// any other value (canonically `-1`) means no filter.
pub open spec fn spec_parse_forecast(v: i32) -> Option<CForecastType> {
    if v == 0 {
        Some(CForecastType::BearishReversal)
    } else if v == 1 {
        Some(CForecastType::BullishReversal)
    } else if v == 2 {
        Some(CForecastType::BearishContinuation)
    } else if v == 3 {
        Some(CForecastType::BullishContinuation)
    } else if v == 4 {
        Some(CForecastType::BearishReversalOrContinuation)
    } else if v == 5 {
        Some(CForecastType::BullishReversalOrContinuation)
    } else {
        None
    }
}

/// Parses the C forecast filter parameter.
pub fn parse_forecast(v: i32) -> (r: Option<CForecastType>)
    ensures
        r == spec_parse_forecast(v),
{
    match v {
        0 => Some(CForecastType::BearishReversal),
        1 => Some(CForecastType::BullishReversal),
        2 => Some(CForecastType::BearishContinuation),
        3 => Some(CForecastType::BullishContinuation),
        4 => Some(CForecastType::BearishReversalOrContinuation),
        5 => Some(CForecastType::BullishReversalOrContinuation),
        _ => None,
    }
}

/// A forecast's own code selects exactly that forecast, only codes `0..=5`
/// select a forecast, and distinct forecasts have distinct codes.
pub proof fn lemma_forecast_code_roundtrip(f: CForecastType, v: i32)
    ensures
        spec_parse_forecast(f.spec_code()) == Some(f),
        0 <= f.spec_code() <= 5,
        spec_parse_forecast(v) is Some <==> 0 <= v <= 5,
        spec_parse_forecast(v) == Some(f) ==> f.spec_code() == v,
{
}

/// Metadata of one detectable pattern, as the core registry describes it.
pub struct PatternRecord {
    /// The key by which the core library identifies the pattern.
    pub key: u32,
    pub name: Vec<u8>,
    pub full_name: Vec<u8>,
    pub japanese_name: Vec<u8>,
    pub forecast: CForecastType,
    pub bars: u32,
}

/// Registry index `i` comes before registry index `j` in the table: its
/// name sorts strictly first, or the names are equal and `i` came first in
/// the registry.
pub open spec fn precedes(names: Seq<Seq<u8>>, i: int, j: int) -> bool {
    if names[i] == names[j] {
        i < j
    } else {
        lex_le(names[i], names[j])
    }
}

proof fn lemma_precedes_trans(names: Seq<Seq<u8>>, i: int, j: int, k: int)
    requires
        precedes(names, i, j),
        precedes(names, j, k),
    ensures
        precedes(names, i, k),
{
    if names[i] == names[j] {
    } else if names[j] == names[k] {
    } else {
        lemma_lex_le_trans(names[i], names[j], names[k]);
        if names[i] == names[k] {
            lemma_lex_le_antisym(names[i], names[j]);
        }
    }
}

/// A sequence of registry indices is strictly ordered by `precedes`.
pub open spec fn sorted_by_name(names: Seq<Seq<u8>>, order: Seq<usize>) -> bool {
    forall|a: int, b: int| 0 <= a < b < order.len() ==> precedes(names, #[trigger] order[a] as int, #[trigger] order[b] as int)
}

/// Every pattern of the registry, in registry order, together with the
/// order in which the table lists them.
pub struct PatternTable {
    /// The patterns in registry order.
    pub records: Vec<PatternRecord>,
    /// `order[id]` is the registry index of the pattern with table id `id`.
    pub order: Vec<usize>,
}

impl PatternTable {
    pub open spec fn names(&self) -> Seq<Seq<u8>> {
        self.records@.map_values(|r: PatternRecord| r.name@)
    }

    /// Number of patterns in the table.
    pub open spec fn len(&self) -> nat {
        self.records@.len()
    }

    /// The pattern with table id `id`.
    pub open spec fn entry(&self, id: int) -> PatternRecord {
        self.records@[self.order@[id] as int]
    }

    /// The table lists every registry pattern exactly once, sorted by name,
    /// ties in registry order; ids fit below the `u32::MAX` sentinel.
    pub open spec fn wf(&self) -> bool {
        &&& self.records@.len() < u32::MAX
        &&& self.order@.len() == self.records@.len()
        &&& forall|id: int| 0 <= id < self.order@.len() ==> (#[trigger] self.order@[id]) < self.records@.len()
        &&& forall|r: int| 0 <= r < self.records@.len() ==> #[trigger] self.order@.contains(r as usize)
        &&& sorted_by_name(self.names(), self.order@)
    }

    /// Builds the table from the registry's patterns, in registry order.
    pub fn new(records: Vec<PatternRecord>) -> (t: PatternTable)
        requires
            records@.len() < u32::MAX,
        ensures
            t.wf(),
            t.records@ == records@,
    {
        let n = records.len();
        let ghost names = records@.map_values(|r: PatternRecord| r.name@);
        let mut order: Vec<usize> = Vec::new();
        let mut i: usize = 0;
        while i < n
            invariant
                n == records@.len(),
                names == records@.map_values(|r: PatternRecord| r.name@),
                i <= n,
                order@.len() == i,
                forall|k: int| 0 <= k < order@.len() ==> (#[trigger] order@[k]) < i,
                forall|r: int| 0 <= r < i ==> #[trigger] order@.contains(r as usize),
                sorted_by_name(names, order@),
            decreases n - i,
        {
            let mut j: usize = i;
            while j > 0 && !lex_le_bytes(&records[order[j - 1]].name, &records[i].name)
                invariant
                    n == records@.len(),
                    names == records@.map_values(|r: PatternRecord| r.name@),
                    i < n,
                    j <= i,
                    order@.len() == i,
                    forall|k: int| 0 <= k < order@.len() ==> (#[trigger] order@[k]) < i,
                    forall|k: int| j <= k < i ==> !lex_le(#[trigger] names[order@[k] as int], names[i as int]),
                decreases j,
            {
                j = j - 1;
            }
            proof {
                assert forall|k: int| j <= k < i implies precedes(names, i as int, #[trigger] order@[k] as int) by {
                    let o = order@[k] as int;
                    lemma_lex_le_refl(names[i as int]);
                    lemma_lex_le_total(names[o], names[i as int]);
                }
                if j > 0 {
                    let o = order@[j - 1] as int;
                    assert(lex_le(names[o], names[i as int]));
                    assert(precedes(names, o, i as int));
                }
            }
            let ghost prev = order@;
            order.insert(j, i);
            proof {
                let s = order@;
                assert(s == prev.insert(j as int, i));
                assert forall|a: int, b: int| 0 <= a < b < s.len() implies precedes(names, #[trigger] s[a] as int, #[trigger] s[b] as int) by {
                    if b < j {
                        assert(s[a] == prev[a] && s[b] == prev[b]);
                    } else if b == j {
                        assert(s[a] == prev[a]);
                        if a < j - 1 {
                            assert(precedes(names, prev[a] as int, prev[j - 1] as int));
                            lemma_precedes_trans(names, prev[a] as int, prev[j - 1] as int, i as int);
                        }
                    } else if a > j {
                        assert(s[a] == prev[a - 1] && s[b] == prev[b - 1]);
                    } else if a == j {
                        assert(s[b] == prev[b - 1]);
                    } else {
                        assert(s[a] == prev[a] && s[b] == prev[b - 1]);
                        if j > 0 {
                            if a < j - 1 {
                                assert(precedes(names, prev[a] as int, prev[j - 1] as int));
                                lemma_precedes_trans(names, prev[a] as int, prev[j - 1] as int, i as int);
                            }
                            assert(precedes(names, prev[a] as int, i as int));
                            assert(precedes(names, i as int, prev[b - 1] as int));
                            lemma_precedes_trans(names, prev[a] as int, i as int, prev[b - 1] as int);
                        }
                    }
                }
                assert forall|r: int| 0 <= r < i + 1 implies #[trigger] s.contains(r as usize) by {
                    if r == i {
                        assert(s[j as int] == i);
                    } else {
                        assert(prev.contains(r as usize));
                        let k = choose|k: int| 0 <= k < prev.len() && prev[k] == r as usize;
                        if k < j {
                            assert(s[k] == prev[k]);
                        } else {
                            assert(s[k + 1] == prev[k]);
                        }
                    }
                }
            }
            i = i + 1;
        }
        PatternTable { records, order }
    }

    /// Number of detectable patterns.
    pub fn num_patterns(&self) -> (n: usize)
        ensures
            n == self.len(),
    {
        self.records.len()
    }

    /// The table id of the first pattern at or after id `from` with the
    /// given key, or `u32::MAX` when there is none.
    pub open spec fn first_id_from(&self, key: u32, from: int) -> u32
        decreases self.order@.len() - from,
    {
        if from < 0 || from >= self.order@.len() {
            u32::MAX
        } else if self.entry(from).key == key {
            from as u32
        } else {
            self.first_id_from(key, from + 1)
        }
    }

    /// The table id of the pattern with the given key, or `u32::MAX` when no
    /// pattern has that key.
    pub open spec fn spec_pattern_id(&self, key: u32) -> u32 {
        self.first_id_from(key, 0)
    }

    /// The id found for a key is the first id carrying that key, and the
    /// sentinel is found exactly when no id carries it.
    pub proof fn lemma_pattern_id(&self, key: u32)
        requires
            self.wf(),
        ensures
            self.spec_pattern_id(key) == u32::MAX <==> (forall|id: int| 0 <= id < self.len() ==> #[trigger] self.entry(id).key != key),
            self.spec_pattern_id(key) != u32::MAX ==> {
                &&& self.spec_pattern_id(key) < self.len()
                &&& self.entry(self.spec_pattern_id(key) as int).key == key
                &&& forall|id: int| 0 <= id < self.spec_pattern_id(key) ==> #[trigger] self.entry(id).key != key
            },
    {
        self.lemma_first_id_from(key, 0);
    }

    proof fn lemma_first_id_from(&self, key: u32, from: int)
        requires
            self.wf(),
            0 <= from <= self.len(),
        ensures
            self.first_id_from(key, from) == u32::MAX <==> (forall|id: int| from <= id < self.len() ==> #[trigger] self.entry(id).key != key),
            self.first_id_from(key, from) != u32::MAX ==> {
                &&& from <= self.first_id_from(key, from) < self.len()
                &&& self.entry(self.first_id_from(key, from) as int).key == key
                &&& forall|id: int| from <= id < self.first_id_from(key, from) ==> #[trigger] self.entry(id).key != key
            },
        decreases self.len() - from,
    {
        if from < self.len() {
            self.lemma_first_id_from(key, from + 1);
        }
    }

    /// The table id of the pattern with the given key; `u32::MAX` if the key
    /// is not in the table (which a well-formed registry never produces).
    pub fn pattern_id(&self, key: u32) -> (id: u32)
        requires
            self.wf(),
        ensures
            id == self.spec_pattern_id(key),
    {
        let n = self.order.len();
        let mut k: usize = 0;
        while k < n
            invariant
                self.wf(),
                n == self.order@.len(),
                k <= n,
                self.first_id_from(key, k as int) == self.first_id_from(key, 0),
            decreases n - k,
        {
            if self.records[self.order[k]].key == key {
                return k as u32;
            }
            k = k + 1;
        }
        u32::MAX
    }

    /// Metadata of the pattern with table id `id`, or `None` when `id` is out
    /// of range.
    pub fn pattern_info(&self, id: u32) -> (r: Option<&PatternRecord>)
        requires
            self.wf(),
        ensures
            (id as int) < self.len() ==> r == Some(&self.entry(id as int)),
            (id as int) >= self.len() ==> r is None,
    {
        let i = id as usize;
        if i < self.order.len() {
            Some(&self.records[self.order[i]])
        } else {
            None
        }
    }
}

/// The table's ids are sorted by pattern name: an earlier id never has a
/// name that sorts after a later id's name, and equal names keep their
/// registry order.
pub proof fn lemma_table_sorted(t: &PatternTable, a: int, b: int)
    requires
        t.wf(),
        0 <= a < b < t.len(),
    ensures
        lex_le(t.entry(a).name@, t.entry(b).name@),
        t.entry(a).name@ == t.entry(b).name@ ==> t.order@[a] < t.order@[b],
{
    let names = t.names();
    assert(precedes(names, t.order@[a] as int, t.order@[b] as int));
    assert(names[t.order@[a] as int] == t.entry(a).name@);
    assert(names[t.order@[b] as int] == t.entry(b).name@);
    if t.entry(a).name@ == t.entry(b).name@ {
        lemma_lex_le_refl(t.entry(a).name@);
    }
}

/// Registry index `r` is listed under some table id.
pub open spec fn has_id(t: &PatternTable, r: int) -> bool {
    exists|id: int| 0 <= id < t.len() && t.order@[id] == r
}

/// Every registry pattern has exactly one table id: ids map to registry
/// indices one to one and onto.
pub proof fn lemma_table_is_permutation(t: &PatternTable)
    requires
        t.wf(),
    ensures
        forall|a: int, b: int| 0 <= a < t.len() && 0 <= b < t.len() && a != b ==> #[trigger] t.order@[a] != #[trigger] t.order@[b],
        forall|r: int| 0 <= r < t.len() ==> #[trigger] has_id(t, r),
{
    let names = t.names();
    assert forall|a: int, b: int| 0 <= a < t.len() && 0 <= b < t.len() && a != b implies #[trigger] t.order@[a] != #[trigger] t.order@[b] by {
        if a < b {
            assert(precedes(names, t.order@[a] as int, t.order@[b] as int));
        } else {
            assert(precedes(names, t.order@[b] as int, t.order@[a] as int));
        }
    }
    assert forall|r: int| 0 <= r < t.len() implies #[trigger] has_id(t, r) by {
        assert(t.order@.contains(r as usize));
        let id = choose|id: int| 0 <= id < t.order@.len() && t.order@[id] == r as usize;
        assert(t.order@[id] == r);
    }
}

/// The table order is determined by the registry alone: two tables built
/// from the same registry list every pattern under the same id, so ids
/// never change between builds.
pub proof fn lemma_table_order_unique(t1: &PatternTable, t2: &PatternTable)
    requires
        t1.wf(),
        t2.wf(),
        t1.records@ == t2.records@,
    ensures
        t1.order@ == t2.order@,
{
    let names = t1.names();
    assert(t2.names() == names);
    lemma_table_is_permutation(t1);
    lemma_table_is_permutation(t2);
    let n = t1.len() as int;
    if exists|a: int| 0 <= a < n && t1.order@[a] != t2.order@[a] {
        lemma_first_difference(t1.order@, t2.order@, n);
        let a = choose|a: int| 0 <= a < n && t1.order@[a] != t2.order@[a] && forall|k: int| 0 <= k < a ==> t1.order@[k] == t2.order@[k];
        let x = t1.order@[a];
        let y = t2.order@[a];
        assert(has_id(t1, y as int));
        let b = choose|b: int| 0 <= b < t1.len() && t1.order@[b] == y;
        assert(has_id(t2, x as int));
        let c = choose|c: int| 0 <= c < t2.len() && t2.order@[c] == x;
        if b < a {
            assert(t2.order@[b] == y);
        }
        if c < a {
            assert(t1.order@[c] == x);
        }
        assert(b > a && c > a);
        assert(precedes(names, x as int, y as int));
        assert(precedes(names, y as int, x as int));
        if names[x as int] != names[y as int] {
            lemma_lex_le_antisym(names[x as int], names[y as int]);
        }
        assert(false);
    }
    assert(t1.order@ =~= t2.order@);
}

proof fn lemma_first_difference(s1: Seq<usize>, s2: Seq<usize>, n: int)
    requires
        n <= s1.len(),
        n <= s2.len(),
        exists|a: int| 0 <= a < n && s1[a] != s2[a],
    ensures
        exists|a: int| 0 <= a < n && s1[a] != s2[a] && forall|k: int| 0 <= k < a ==> s1[k] == s2[k],
    decreases n,
{
    if forall|k: int| 0 <= k < n - 1 ==> s1[k] == s2[k] {
        assert(s1[n - 1] != s2[n - 1]);
    } else {
        lemma_first_difference(s1, s2, n - 1);
    }
}

/// The patterns detected on one bar, by key: none when the core output for
/// the bar is empty.
pub open spec fn bar_keys(slot: Option<Vec<u32>>) -> Seq<u32> {
    match slot {
        Some(v) => v@,
        None => Seq::empty(),
    }
}

/// The keys of all patterns detected on the given bars, bar after bar.
pub open spec fn flat_keys(bars: Seq<Option<Vec<u32>>>) -> Seq<u32>
    decreases bars.len(),
{
    if bars.len() == 0 {
        Seq::empty()
    } else {
        flat_keys(bars.drop_last()).add(bar_keys(bars.last()))
    }
}

/// The per-bar pattern output in compressed sparse row layout.
pub struct PatternRows {
    pub num_bars: usize,
    pub total_patterns: usize,
    pub bar_offsets: Vec<u32>,
    pub pattern_ids: Vec<u32>,
}

impl PatternRows {
    /// The layout of `output`: ids are the table ids of the detected keys,
    /// bar after bar, and each offset is the number of patterns detected on
    /// the bars before it (kept to its low 32 bits, as the C layout has it).
    pub open spec fn packs(&self, t: &PatternTable, output: Seq<Option<Vec<u32>>>) -> bool {
        &&& self.num_bars == output.len()
        &&& self.total_patterns == flat_keys(output).len()
        &&& self.pattern_ids@ == flat_keys(output).map_values(|k: u32| t.spec_pattern_id(k))
        &&& self.bar_offsets@.len() == output.len() + 1
        &&& forall|i: int| 0 <= i <= output.len() ==> #[trigger] self.bar_offsets@[i] == flat_keys(output.take(i)).len() as u32
    }
}

/// Flattens per-bar detections (given by key) into the compressed layout.
pub fn pack_candlestick_output(t: &PatternTable, output: &Vec<Option<Vec<u32>>>) -> (r: PatternRows)
    requires
        t.wf(),
    ensures
        r.packs(t, output@),
{
    let num_bars = output.len();
    let mut offsets: Vec<u32> = Vec::new();
    let mut ids: Vec<u32> = Vec::new();
    assert(output@.take(0) =~= Seq::<Option<Vec<u32>>>::empty());
    offsets.push(0);
    let mut b: usize = 0;
    while b < num_bars
        invariant
            t.wf(),
            num_bars == output@.len(),
            b <= num_bars,
            offsets@.len() == b + 1,
            forall|i: int| 0 <= i <= b ==> #[trigger] offsets@[i] == flat_keys(output@.take(i)).len() as u32,
            ids@ == flat_keys(output@.take(b as int)).map_values(|k: u32| t.spec_pattern_id(k)),
        decreases num_bars - b,
    {
        let ghost before = ids@;
        match &output[b] {
            Some(patterns) => {
                let mut p: usize = 0;
                while p < patterns.len()
                    invariant
                        t.wf(),
                        p <= patterns@.len(),
                        ids@ == before.add(patterns@.take(p as int).map_values(|k: u32| t.spec_pattern_id(k))),
                    decreases patterns@.len() - p,
                {
                    let id = t.pattern_id(patterns[p]);
                    ids.push(id);
                    assert(patterns@.take(p + 1) =~= patterns@.take(p as int).push(patterns@[p as int]));
                    assert(ids@ =~= before.add(patterns@.take(p + 1).map_values(|k: u32| t.spec_pattern_id(k))));
                    p = p + 1;
                }
                assert(patterns@.take(p as int) =~= patterns@);
            },
            None => {},
        }
        proof {
            let next = output@.take(b + 1);
            assert(next.drop_last() =~= output@.take(b as int));
            assert(next.last() == output@[b as int]);
            assert(flat_keys(next) == flat_keys(output@.take(b as int)).add(bar_keys(output@[b as int])));
            assert(ids@ =~= flat_keys(next).map_values(|k: u32| t.spec_pattern_id(k)));
        }
        offsets.push(ids.len() as u32);
        b = b + 1;
    }
    assert(output@.take(num_bars as int) =~= output@);
    let total_patterns = ids.len();
    PatternRows { num_bars, total_patterns, bar_offsets: offsets, pattern_ids: ids }
}

/// The keys detected on the bars `0..j` are those detected on `0..i`
/// followed by those detected on `i..j`.
pub proof fn lemma_flat_keys_split(bars: Seq<Option<Vec<u32>>>, i: int, j: int)
    requires
        0 <= i <= j <= bars.len(),
    ensures
        flat_keys(bars.take(j)) == flat_keys(bars.take(i)).add(flat_keys(bars.subrange(i, j))),
    decreases j - i,
{
    if i == j {
        assert(bars.subrange(i, j) =~= Seq::<Option<Vec<u32>>>::empty());
        assert(flat_keys(bars.take(i)).add(Seq::<u32>::empty()) =~= flat_keys(bars.take(i)));
    } else {
        lemma_flat_keys_split(bars, i, j - 1);
        assert(bars.take(j).drop_last() =~= bars.take(j - 1));
        assert(bars.subrange(i, j).drop_last() =~= bars.subrange(i, j - 1));
        assert(bars.take(j).last() == bars[j - 1]);
        assert(bars.subrange(i, j).last() == bars[j - 1]);
        assert(flat_keys(bars.take(j)) =~= flat_keys(bars.take(i)).add(flat_keys(bars.subrange(i, j))));
    }
}

/// The compressed layout is valid: offsets start at zero and never
/// decrease, the last one is the pattern total, the ids of bar `i` are
/// exactly the table ids of that bar's detections, and every id names a
/// pattern of the table when every detected key is in the table. This holds
/// whenever the pattern total fits the 32-bit offsets.
pub proof fn lemma_csr_valid(t: &PatternTable, output: Seq<Option<Vec<u32>>>, r: &PatternRows)
    requires
        t.wf(),
        r.packs(t, output),
        r.total_patterns <= u32::MAX,
    ensures
        r.bar_offsets@[0] == 0,
        r.bar_offsets@[output.len() as int] == r.total_patterns,
        forall|i: int| 0 <= i < output.len() ==> #[trigger] r.bar_offsets@[i] <= r.bar_offsets@[i + 1],
        forall|i: int| 0 <= i < output.len() ==> r.pattern_ids@.subrange(#[trigger] r.bar_offsets@[i] as int, r.bar_offsets@[i + 1] as int)
            == bar_keys(output[i]).map_values(|k: u32| t.spec_pattern_id(k)),
        (forall|k: u32| #[trigger] flat_keys(output).contains(k) ==> exists|id: int| 0 <= id < t.len() && t.entry(id).key == k)
            ==> forall|q: int| 0 <= q < r.pattern_ids@.len() ==> #[trigger] r.pattern_ids@[q] < t.len(),
{
    let n = output.len() as int;
    assert(output.take(0) =~= Seq::<Option<Vec<u32>>>::empty());
    assert(output.take(n) =~= output);
    assert forall|i: int| 0 <= i < output.len() implies {
        &&& #[trigger] r.bar_offsets@[i] <= r.bar_offsets@[i + 1]
        &&& r.pattern_ids@.subrange(r.bar_offsets@[i] as int, r.bar_offsets@[i + 1] as int)
            == bar_keys(output[i]).map_values(|k: u32| t.spec_pattern_id(k))
    } by {
        lemma_flat_keys_split(output, i, i + 1);
        lemma_flat_keys_split(output, i + 1, n);
        lemma_flat_keys_split(output, 0, i);
        assert(output.subrange(0, i) =~= output.take(i));
        let lo = flat_keys(output.take(i)).len();
        let hi = flat_keys(output.take(i + 1)).len();
        assert(hi <= flat_keys(output.take(n)).len());
        assert(output.subrange(i, i + 1).drop_last() =~= Seq::<Option<Vec<u32>>>::empty());
        assert(flat_keys(output.subrange(i, i + 1)) =~= bar_keys(output[i]));
        let all = flat_keys(output);
        assert(all == flat_keys(output.take(i + 1)).add(flat_keys(output.subrange(i + 1, n))));
        assert(all.subrange(lo as int, hi as int) =~= bar_keys(output[i]));
        assert(r.pattern_ids@.subrange(lo as int, hi as int) =~= bar_keys(output[i]).map_values(|k: u32| t.spec_pattern_id(k)));
    }
    assert forall|q: int| (forall|k: u32| #[trigger] flat_keys(output).contains(k) ==> exists|id: int| 0 <= id < t.len() && t.entry(id).key == k)
        && 0 <= q < r.pattern_ids@.len() implies #[trigger] r.pattern_ids@[q] < t.len() by {
        let k = flat_keys(output)[q];
        assert(flat_keys(output).contains(k));
        let id = choose|id: int| 0 <= id < t.len() && t.entry(id).key == k;
        t.lemma_pattern_id(k);
    }
}

/// Every detection of every bar is kept: an empty bar spans no id, and
/// the offsets of a bar with detections span as many ids as keys were
/// detected on it, the `k`-th of them being the table id of the `k`-th key.
/// This holds whenever the pattern total fits the 32-bit offsets.
pub proof fn lemma_bar_detections_kept(t: &PatternTable, output: Seq<Option<Vec<u32>>>, r: &PatternRows)
    requires
        t.wf(),
        r.packs(t, output),
        r.total_patterns <= u32::MAX,
    ensures
        forall|i: int| 0 <= i < output.len() ==> #[trigger] bar_kept(t, r, output[i], i),
{
    assert forall|i: int| 0 <= i < output.len() implies #[trigger] bar_kept(t, r, output[i], i) by {
        lemma_bar_kept_at(t, output, r, i);
    }
}

/// Bar `i` with detections `slot` is kept: an empty bar spans no id; a bar
/// with detections spans one id per detected key, in detection order, each
/// the table id of its key.
pub open spec fn bar_kept(t: &PatternTable, r: &PatternRows, slot: Option<Vec<u32>>, i: int) -> bool {
    match slot {
        None => r.bar_offsets@[i] == r.bar_offsets@[i + 1],
        Some(v) => {
            &&& r.bar_offsets@[i + 1] - r.bar_offsets@[i] == v@.len()
            &&& forall|k: int| 0 <= k < v@.len() ==> {
                &&& r.bar_offsets@[i] + k < r.pattern_ids@.len()
                &&& r.pattern_ids@[r.bar_offsets@[i] + k] == t.spec_pattern_id(#[trigger] v@[k])
            }
        },
    }
}

proof fn lemma_bar_kept_at(t: &PatternTable, output: Seq<Option<Vec<u32>>>, r: &PatternRows, i: int)
    requires
        t.wf(),
        r.packs(t, output),
        r.total_patterns <= u32::MAX,
        0 <= i < output.len(),
    ensures
        bar_kept(t, r, output[i], i),
{
    lemma_bar_span(t, output, r, i);
    if output[i] is Some {
        let v = output[i]->Some_0;
        assert(bar_keys(output[i]) == v@);
        assert forall|k: int| 0 <= k < v@.len() implies {
            &&& r.bar_offsets@[i] + k < r.pattern_ids@.len()
            &&& r.pattern_ids@[r.bar_offsets@[i] + k] == t.spec_pattern_id(#[trigger] v@[k])
        } by {
            assert(r.pattern_ids@[r.bar_offsets@[i] + k] == t.spec_pattern_id(bar_keys(output[i])[k]));
        }
    }
}

/// A detected key whose pattern is in the table is handed over as the id of
/// a pattern with that key.
pub proof fn lemma_detection_names_pattern(t: &PatternTable, output: Seq<Option<Vec<u32>>>, r: &PatternRows, i: int, k: int)
    requires
        t.wf(),
        r.packs(t, output),
        r.total_patterns <= u32::MAX,
        0 <= i < output.len(),
        output[i] is Some,
        0 <= k < output[i]->Some_0@.len(),
        exists|id: int| 0 <= id < t.len() && t.entry(id).key == output[i]->Some_0@[k],
    ensures
        r.bar_offsets@[i] + k < r.pattern_ids@.len(),
        r.pattern_ids@[r.bar_offsets@[i] + k] < t.len(),
        t.entry(r.pattern_ids@[r.bar_offsets@[i] + k] as int).key == output[i]->Some_0@[k],
{
    let key = output[i]->Some_0@[k];
    lemma_bar_span(t, output, r, i);
    assert(bar_keys(output[i]) == output[i]->Some_0@);
    assert(r.pattern_ids@[r.bar_offsets@[i] + k] == t.spec_pattern_id(bar_keys(output[i])[k]));
    t.lemma_pattern_id(key);
    if exists|id: int| 0 <= id < t.len() && t.entry(id).key == key {
        let id = choose|id: int| 0 <= id < t.len() && t.entry(id).key == key;
        assert(t.entry(id).key == key);
    }
}

/// The ids of bar `i` lie between its two offsets, one per detected key,
/// in the order the keys were detected.
proof fn lemma_bar_span(t: &PatternTable, output: Seq<Option<Vec<u32>>>, r: &PatternRows, i: int)
    requires
        t.wf(),
        r.packs(t, output),
        r.total_patterns <= u32::MAX,
        0 <= i < output.len(),
    ensures
        r.bar_offsets@[i] <= r.bar_offsets@[i + 1] <= r.pattern_ids@.len(),
        r.bar_offsets@[i + 1] - r.bar_offsets@[i] == bar_keys(output[i]).len(),
        forall|k: int| 0 <= k < bar_keys(output[i]).len() ==>
            #[trigger] r.pattern_ids@[r.bar_offsets@[i] + k] == t.spec_pattern_id(bar_keys(output[i])[k]),
{
    let n = output.len() as int;
    lemma_csr_valid(t, output, r);
    lemma_offsets_mono(r, n, i + 1, n);
    let lo = r.bar_offsets@[i] as int;
    let hi = r.bar_offsets@[i + 1] as int;
    assert(lo <= hi);
    assert(r.pattern_ids@.len() == r.bar_offsets@[n]);
    assert(r.pattern_ids@.subrange(lo, hi) == bar_keys(output[i]).map_values(|key: u32| t.spec_pattern_id(key)));
    lemma_span_ids(t, r.pattern_ids@, lo, hi, bar_keys(output[i]));
}

proof fn lemma_span_ids(t: &PatternTable, ids: Seq<u32>, lo: int, hi: int, keys: Seq<u32>)
    requires
        0 <= lo <= hi <= ids.len(),
        ids.subrange(lo, hi) == keys.map_values(|key: u32| t.spec_pattern_id(key)),
    ensures
        hi - lo == keys.len(),
        forall|k: int| 0 <= k < keys.len() ==> #[trigger] ids[lo + k] == t.spec_pattern_id(keys[k]),
{
    let sub = ids.subrange(lo, hi);
    assert(sub.len() == hi - lo);
    assert(keys.map_values(|key: u32| t.spec_pattern_id(key)).len() == keys.len());
    assert forall|k: int| 0 <= k < keys.len() implies #[trigger] ids[lo + k] == t.spec_pattern_id(keys[k]) by {
        assert(sub[k] == ids[lo + k]);
    }
}

proof fn lemma_offsets_mono(r: &PatternRows, n: int, a: int, b: int)
    requires
        0 <= a <= b <= n,
        r.bar_offsets@.len() == n + 1,
        forall|i: int| 0 <= i < n ==> #[trigger] r.bar_offsets@[i] <= r.bar_offsets@[i + 1],
    ensures
        r.bar_offsets@[a] <= r.bar_offsets@[b],
    decreases b - a,
{
    if a < b {
        lemma_offsets_mono(r, n, a, b - 1);
    }
}

/// Result of a fresh candlestick run: the compressed output and, on
/// success, the state for later continuation.
pub struct CCandleStickResult<S> {
    pub error: CIndicatorError,
    pub rows: PatternRows,
    pub state: Option<S>,
}

/// Result of a candlestick continuation; the continued state is updated in
/// place.
pub struct CCandleStickBatchResult {
    pub error: CIndicatorError,
    pub num_bars: usize,
    pub total_patterns: usize,
    pub bar_offsets: Vec<u32>,
    pub pattern_ids: Vec<u32>,
}

/// The empty compressed output of an error result.
pub open spec fn empty_rows(r: PatternRows) -> bool {
    &&& r.num_bars == 0
    &&& r.total_patterns == 0
    &&& r.bar_offsets@.len() == 0
    &&& r.pattern_ids@.len() == 0
}

impl<S> CCandleStickResult<S> {
    pub fn err(e: CIndicatorError) -> (r: Self)
        ensures
            r.error == e,
            empty_rows(r.rows),
            r.state is None,
    {
        CCandleStickResult {
            error: e,
            rows: PatternRows { num_bars: 0, total_patterns: 0, bar_offsets: Vec::new(), pattern_ids: Vec::new() },
            state: None,
        }
    }

    /// Turns the outcome of a fresh run (detections given by key) into the
    /// caller's result.
    pub fn from_outcome(t: &PatternTable, outcome: Result<(Vec<Option<Vec<u32>>>, S), CIndicatorError>) -> (r: Self)
        requires
            t.wf(),
        ensures
            outcome matches Ok((output, s)) ==> {
                &&& r.error == CIndicatorError::NoError
                &&& r.state == Some(s)
                &&& r.rows.packs(t, output@)
            },
            outcome matches Err(e) ==> r.error == e && empty_rows(r.rows) && r.state is None,
            (outcome matches Err(e) ==> e != CIndicatorError::NoError) ==> (r.error == CIndicatorError::NoError <==> r.state is Some),
    {
        match outcome {
            Ok((output, s)) => {
                let rows = pack_candlestick_output(t, &output);
                CCandleStickResult { error: CIndicatorError::NoError, rows, state: Some(s) }
            },
            Err(e) => Self::err(e),
        }
    }
}

impl CCandleStickBatchResult {
    pub open spec fn is_error_result(&self, e: CIndicatorError) -> bool {
        &&& self.error == e
        &&& self.num_bars == 0
        &&& self.total_patterns == 0
        &&& self.bar_offsets@.len() == 0
        &&& self.pattern_ids@.len() == 0
    }

    pub fn err(e: CIndicatorError) -> (r: Self)
        ensures
            r.is_error_result(e),
    {
        CCandleStickBatchResult { error: e, num_bars: 0, total_patterns: 0, bar_offsets: Vec::new(), pattern_ids: Vec::new() }
    }

    /// Turns the outcome of a continuation (detections given by key) into
    /// the caller's result.
    pub fn from_outcome(t: &PatternTable, outcome: Result<Vec<Option<Vec<u32>>>, CIndicatorError>) -> (r: Self)
        requires
            t.wf(),
        ensures
            outcome matches Ok(output) ==> {
                &&& r.error == CIndicatorError::NoError
                &&& (PatternRows { num_bars: r.num_bars, total_patterns: r.total_patterns, bar_offsets: r.bar_offsets, pattern_ids: r.pattern_ids }).packs(t, output@)
            },
            outcome matches Err(e) ==> r.is_error_result(e),
    {
        match outcome {
            Ok(output) => {
                let rows = pack_candlestick_output(t, &output);
                CCandleStickBatchResult {
                    error: CIndicatorError::NoError,
                    num_bars: rows.num_bars,
                    total_patterns: rows.total_patterns,
                    bar_offsets: rows.bar_offsets,
                    pattern_ids: rows.pattern_ids,
                }
            },
            Err(e) => Self::err(e),
        }
    }

    /// The result of a continuation asked of a missing state.
    pub fn missing_state() -> (r: Self)
        ensures
            r.is_error_result(CIndicatorError::InvalidIndicatorState),
    {
        Self::err(CIndicatorError::InvalidIndicatorState)
    }
}

} // verus!
