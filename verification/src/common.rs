//! Shared result shaping for every indicator entry point.
//!
//! An indicator call hands back either a set of output rows (plus, for a
//! fresh run, a continuation state) or an error. This module decides which
//! rows are handed to the caller, what their lengths are, and how errors
//! are reported, independently of the element type of the rows.
//!
//! Memory model, as seen by a C caller of the surrounding FFI layer:
//!   - a fresh run and a continuation both own their output rows;
//!   - releasing the rows never releases a state;
//!   - a state is released on its own, once the caller stops streaming.
use vstd::prelude::*;

verus! {

/// Category of an indicator, as reported in its metadata.
#[derive(Clone, Copy, Debug, PartialEq, Eq, Structural)]
pub enum CIndicatorType {
    Trend,
    Momentum,
    Volume,
    Volatility,
    Price,
    Cycle,
    CandleStick,
    Math,
    Other,
}

impl CIndicatorType {
    /// The integer that stands for this category at the C boundary.
    pub open spec fn spec_code(self) -> i32 {
        match self {
            CIndicatorType::Trend => 0,
            CIndicatorType::Momentum => 1,
            CIndicatorType::Volume => 2,
            CIndicatorType::Volatility => 3,
            CIndicatorType::Price => 4,
            CIndicatorType::Cycle => 5,
            CIndicatorType::CandleStick => 6,
            CIndicatorType::Math => 7,
            CIndicatorType::Other => 8,
        }
    }

    /// The category that a C integer stands for, if any.
    pub open spec fn spec_from_code(c: i32) -> Option<CIndicatorType> {
        if c == 0 {
            Some(CIndicatorType::Trend)
        } else if c == 1 {
            Some(CIndicatorType::Momentum)
        } else if c == 2 {
            Some(CIndicatorType::Volume)
        } else if c == 3 {
            Some(CIndicatorType::Volatility)
        } else if c == 4 {
            Some(CIndicatorType::Price)
        } else if c == 5 {
            Some(CIndicatorType::Cycle)
        } else if c == 6 {
            Some(CIndicatorType::CandleStick)
        } else if c == 7 {
            Some(CIndicatorType::Math)
        } else if c == 8 {
            Some(CIndicatorType::Other)
        } else {
            None
        }
    }

    pub fn code(&self) -> (c: i32)
        ensures
            c == self.spec_code(),
    {
        match self {
            CIndicatorType::Trend => 0,
            CIndicatorType::Momentum => 1,
            CIndicatorType::Volume => 2,
            CIndicatorType::Volatility => 3,
            CIndicatorType::Price => 4,
            CIndicatorType::Cycle => 5,
            CIndicatorType::CandleStick => 6,
            CIndicatorType::Math => 7,
            CIndicatorType::Other => 8,
        }
    }
}

/// Where an indicator's outputs are meant to be drawn.
#[derive(Clone, Copy, Debug, PartialEq, Eq, Structural)]
pub enum CDisplayType {
    Overlay,
    Indicator,
    Volume,
    Price,
}

impl CDisplayType {
    /// The integer that stands for this display type at the C boundary.
    pub open spec fn spec_code(self) -> i32 {
        match self {
            CDisplayType::Overlay => 0,
            CDisplayType::Indicator => 1,
            CDisplayType::Volume => 2,
            CDisplayType::Price => 3,
        }
    }

    /// The display type that a C integer stands for, if any.
    pub open spec fn spec_from_code(c: i32) -> Option<CDisplayType> {
        if c == 0 {
            Some(CDisplayType::Overlay)
        } else if c == 1 {
            Some(CDisplayType::Indicator)
        } else if c == 2 {
            Some(CDisplayType::Volume)
        } else if c == 3 {
            Some(CDisplayType::Price)
        } else {
            None
        }
    }

    pub fn code(&self) -> (c: i32)
        ensures
            c == self.spec_code(),
    {
        match self {
            CDisplayType::Overlay => 0,
            CDisplayType::Indicator => 1,
            CDisplayType::Volume => 2,
            CDisplayType::Price => 3,
        }
    }
}

/// Outcome of an indicator call as reported to a C caller.
#[derive(Clone, Copy, Debug, PartialEq, Eq, Structural)]
pub enum CIndicatorError {
    NoError,
    InvalidInputs,
    NotEnoughData,
    InvalidOptions,
    InvalidIndicatorState,
}

impl CIndicatorError {
    /// The integer that stands for this outcome at the C boundary.
    pub open spec fn spec_code(self) -> i32 {
        match self {
            CIndicatorError::NoError => 0,
            CIndicatorError::InvalidInputs => 1,
            CIndicatorError::NotEnoughData => 2,
            CIndicatorError::InvalidOptions => 3,
            CIndicatorError::InvalidIndicatorState => 4,
        }
    }

    /// The outcome that a C integer stands for, if any.
    pub open spec fn spec_from_code(c: i32) -> Option<CIndicatorError> {
        if c == 0 {
            Some(CIndicatorError::NoError)
        } else if c == 1 {
            Some(CIndicatorError::InvalidInputs)
        } else if c == 2 {
            Some(CIndicatorError::NotEnoughData)
        } else if c == 3 {
            Some(CIndicatorError::InvalidOptions)
        } else if c == 4 {
            Some(CIndicatorError::InvalidIndicatorState)
        } else {
            None
        }
    }

    pub fn code(&self) -> (c: i32)
        ensures
            c == self.spec_code(),
    {
        match self {
            CIndicatorError::NoError => 0,
            CIndicatorError::InvalidInputs => 1,
            CIndicatorError::NotEnoughData => 2,
            CIndicatorError::InvalidOptions => 3,
            CIndicatorError::InvalidIndicatorState => 4,
        }
    }
}

/// Every category's code decodes back to that category, and a code that
/// decodes to a category is that category's code.
pub proof fn lemma_indicator_type_code_roundtrip(t: CIndicatorType, c: i32)
    ensures
        CIndicatorType::spec_from_code(t.spec_code()) == Some(t),
        0 <= t.spec_code() <= 8,
        CIndicatorType::spec_from_code(c) == Some(t) ==> t.spec_code() == c,
        CIndicatorType::spec_from_code(c) is Some <==> 0 <= c <= 8,
{
}

/// Every display type's code decodes back to that display type, and a code
/// that decodes to a display type is that display type's code.
pub proof fn lemma_display_type_code_roundtrip(t: CDisplayType, c: i32)
    ensures
        CDisplayType::spec_from_code(t.spec_code()) == Some(t),
        0 <= t.spec_code() <= 3,
        CDisplayType::spec_from_code(c) == Some(t) ==> t.spec_code() == c,
        CDisplayType::spec_from_code(c) is Some <==> 0 <= c <= 3,
{
}

/// Every outcome's code decodes back to that outcome, a code that decodes to
/// an outcome is that outcome's code, and only success has code zero.
pub proof fn lemma_error_code_roundtrip(e: CIndicatorError, c: i32)
    ensures
        CIndicatorError::spec_from_code(e.spec_code()) == Some(e),
        0 <= e.spec_code() <= 4,
        CIndicatorError::spec_from_code(c) == Some(e) ==> e.spec_code() == c,
        CIndicatorError::spec_from_code(c) is Some <==> 0 <= c <= 4,
        (e.spec_code() == 0) <==> (e == CIndicatorError::NoError),
{
}

/// Normalises the caller's optional-output request: an absent or empty
/// request mask means that no optional output was requested.
pub fn optional_outputs_slice<'a>(mask: Option<&'a [bool]>) -> (r: Option<&'a [bool]>)
    ensures
        r is Some <==> (mask is Some && mask.unwrap()@.len() > 0),
        r is Some ==> r.unwrap()@ == mask.unwrap()@,
{
    match mask {
        Some(m) => {
            if m.len() == 0 {
                None
            } else {
                Some(m)
            }
        },
        None => None,
    }
}

/// The caller's optional-output request, as a sequence of flags.
pub open spec fn mask_of(optional: Option<&[bool]>) -> Option<Seq<bool>> {
    match optional {
        Some(m) => Some(m@),
        None => None,
    }
}

/// Optional output `j` was asked for: the mask is present, long enough,
/// and its flag `j` is set.
pub open spec fn requested(mask: Option<Seq<bool>>, j: int) -> bool {
    match mask {
        Some(m) => 0 <= j < m.len() && m[j],
        None => false,
    }
}

/// The optional rows that were asked for, in declaration order.
pub open spec fn requested_rows<T>(optional_rows: Seq<Vec<T>>, mask: Option<Seq<bool>>) -> Seq<Vec<T>>
    decreases optional_rows.len(),
{
    if optional_rows.len() == 0 {
        Seq::empty()
    } else if requested(mask, optional_rows.len() - 1) {
        requested_rows(optional_rows.drop_last(), mask).push(optional_rows.last())
    } else {
        requested_rows(optional_rows.drop_last(), mask)
    }
}

/// How many of the first `n` optional outputs were asked for.
pub open spec fn requested_count(mask: Option<Seq<bool>>, n: int) -> nat
    decreases n,
{
    if n <= 0 {
        0
    } else if requested(mask, n - 1) {
        requested_count(mask, n - 1) + 1
    } else {
        requested_count(mask, n - 1)
    }
}

/// The rows handed to the caller: the first `num_mandatory` rows (the
/// mandatory outputs, empty or not), then the optional rows that the mask
/// asks for, in declaration order. With no mask no optional row is handed
/// over.
pub open spec fn kept_rows<T>(rows: Seq<Vec<T>>, num_mandatory: nat, mask: Option<Seq<bool>>) -> Seq<Vec<T>> {
    if rows.len() <= num_mandatory {
        rows
    } else {
        rows.take(num_mandatory as int).add(requested_rows(rows.skip(num_mandatory as int), mask))
    }
}

/// The rows handed over are the mandatory rows, all of them and first, and
/// then exactly as many rows as optional outputs were asked for.
pub proof fn lemma_kept_rows_layout<T>(rows: Seq<Vec<T>>, num_mandatory: nat, mask: Option<Seq<bool>>)
    ensures
        forall|i: int| 0 <= i < num_mandatory && i < rows.len() ==> #[trigger] kept_rows(rows, num_mandatory, mask)[i] == rows[i],
        rows.len() <= num_mandatory ==> kept_rows(rows, num_mandatory, mask).len() == rows.len(),
        rows.len() > num_mandatory ==> kept_rows(rows, num_mandatory, mask).len() == num_mandatory + requested_count(mask, rows.len() - num_mandatory),
        mask is None ==> kept_rows(rows, num_mandatory, mask).len() == (if rows.len() <= num_mandatory { rows.len() } else { num_mandatory as nat }),
{
    if rows.len() > num_mandatory {
        lemma_requested_rows_len(rows.skip(num_mandatory as int), mask);
        lemma_requested_count_none(rows.len() - num_mandatory);
    }
}

proof fn lemma_requested_rows_len<T>(optional_rows: Seq<Vec<T>>, mask: Option<Seq<bool>>)
    ensures
        requested_rows(optional_rows, mask).len() == requested_count(mask, optional_rows.len() as int),
    decreases optional_rows.len(),
{
    if optional_rows.len() > 0 {
        lemma_requested_rows_len(optional_rows.drop_last(), mask);
    }
}

proof fn lemma_requested_count_none(n: int)
    ensures
        requested_count(None, n) == 0,
    decreases n,
{
    if n > 0 {
        lemma_requested_count_none(n - 1);
    }
}

/// Every optional row handed over was asked for: optional row `j` appears
/// among the rows handed over exactly when the mask asks for it, at the
/// position given by the requests before it.
pub proof fn lemma_requested_rows_members<T>(optional_rows: Seq<Vec<T>>, mask: Option<Seq<bool>>, j: int)
    requires
        0 <= j < optional_rows.len(),
        requested(mask, j),
    ensures
        requested_count(mask, j) < requested_rows(optional_rows, mask).len(),
        requested_rows(optional_rows, mask)[requested_count(mask, j) as int] == optional_rows[j],
    decreases optional_rows.len(),
{
    lemma_requested_rows_len(optional_rows, mask);
    let n = optional_rows.len() as int;
    if j == n - 1 {
        lemma_requested_rows_len(optional_rows.drop_last(), mask);
    } else {
        lemma_requested_rows_members(optional_rows.drop_last(), mask, j);
        lemma_requested_count_mono(mask, j + 1, n - 1);
        lemma_requested_rows_len(optional_rows.drop_last(), mask);
    }
}

proof fn lemma_requested_count_mono(mask: Option<Seq<bool>>, a: int, b: int)
    requires
        0 <= a <= b,
    ensures
        requested_count(mask, a) <= requested_count(mask, b),
    decreases b - a,
{
    if a < b {
        lemma_requested_count_mono(mask, a, b - 1);
    }
}

/// The set flags of a mask, in order.
pub open spec fn set_flags(m: Seq<bool>) -> Seq<bool> {
    m.filter(|b: bool| b)
}

proof fn lemma_requested_count_flags(m: Seq<bool>, j: int)
    requires
        0 <= j,
    ensures
        requested_count(Some(m), j) == set_flags(m.take(if j <= m.len() { j } else { m.len() as int })).len(),
    decreases j,
{
    reveal(Seq::filter);
    if j == 0 {
        assert(m.take(0) =~= Seq::<bool>::empty());
    } else {
        lemma_requested_count_flags(m, j - 1);
        if j <= m.len() {
            let tk = m.take(j);
            assert(tk.drop_last() =~= m.take(j - 1));
            assert(tk.last() == m[j - 1]);
        }
    }
}

/// With a mask, the rows handed over are the mandatory rows, in order,
/// followed by one row per set flag: the optional row of flag `j` stands
/// right after the mandatory rows and the rows of the set flags before `j`.
/// Flags past the last optional output ask for nothing; an optional output
/// is asked for exactly when its flag is present and set.
pub proof fn lemma_mask_selects_rows<T>(rows: Seq<Vec<T>>, num_mandatory: nat, m: Seq<bool>)
    requires
        rows.len() > num_mandatory,
    ensures
        forall|j: int| #[trigger] requested(Some(m), j) <==> (0 <= j < m.len() && m[j]),
        ({
            let k = if rows.len() - num_mandatory <= m.len() { rows.len() - num_mandatory } else { m.len() as int };
            &&& kept_rows(rows, num_mandatory, Some(m)).len() == num_mandatory + set_flags(m.take(k)).len()
            &&& forall|i: int| 0 <= i < num_mandatory ==> #[trigger] kept_rows(rows, num_mandatory, Some(m))[i] == rows[i]
            &&& forall|j: int| 0 <= j < k && #[trigger] m[j] ==>
                kept_rows(rows, num_mandatory, Some(m))[(num_mandatory + set_flags(m.take(j)).len()) as int] == rows[num_mandatory + j]
        }),
{
    let n = num_mandatory as int;
    let opt = rows.skip(n);
    let k = if rows.len() - n <= m.len() { rows.len() - n } else { m.len() as int };
    lemma_kept_rows_layout(rows, num_mandatory, Some(m));
    lemma_requested_count_flags(m, rows.len() - n);
    assert forall|j: int| 0 <= j < k && #[trigger] m[j] implies
        kept_rows(rows, num_mandatory, Some(m))[(num_mandatory + set_flags(m.take(j)).len()) as int] == rows[num_mandatory + j] by {
        assert(requested(Some(m), j));
        lemma_requested_rows_members(opt, Some(m), j);
        lemma_requested_count_flags(m, j);
        let kept = kept_rows(rows, num_mandatory, Some(m));
        assert(kept == rows.take(n).add(requested_rows(opt, Some(m))));
        assert(opt[j] == rows[n + j]);
    }
}

/// Output rows prepared for the caller, with the length of each row.
pub struct PackedOutputs<T> {
    pub outputs: Vec<Vec<T>>,
    pub output_lens: Vec<usize>,
    pub num_outputs: usize,
}

impl<T> PackedOutputs<T> {
    /// The outputs are the mandatory rows followed by the requested optional
    /// rows, and each length entry is the length of the row at the same
    /// position.
    pub open spec fn packs(&self, rows: Seq<Vec<T>>, num_mandatory: nat, mask: Option<Seq<bool>>) -> bool {
        &&& self.outputs@ == kept_rows(rows, num_mandatory, mask)
        &&& self.num_outputs == self.outputs@.len()
        &&& self.output_lens@.len() == self.outputs@.len()
        &&& forall|i: int| 0 <= i < self.outputs@.len() ==> #[trigger] self.output_lens@[i] == self.outputs@[i]@.len()
    }
}

/// Prepares the rows of one indicator run for the caller: the
/// `num_mandatory` mandatory rows first, then each optional row whose flag
/// is set in the caller's mask, together with the length of every row
/// handed over.
pub fn pack_outputs<T>(rows: Vec<Vec<T>>, num_mandatory: usize, optional: Option<&[bool]>) -> (r: PackedOutputs<T>)
    ensures
        r.packs(rows@, num_mandatory as nat, mask_of(optional)),
{
    let ghost given = rows@;
    let ghost mask = mask_of(optional);
    let mut rest = rows;
    let mut outputs: Vec<Vec<T>> = Vec::new();
    let mut output_lens: Vec<usize> = Vec::new();
    let mut i: usize = 0;
    while i < num_mandatory && rest.len() > 0
        invariant
            i <= num_mandatory,
            i + rest@.len() == given.len(),
            rest@ == given.skip(i as int),
            outputs@ == given.take(i as int),
            output_lens@.len() == outputs@.len(),
            forall|k: int| 0 <= k < outputs@.len() ==> #[trigger] output_lens@[k] == outputs@[k]@.len(),
        decreases num_mandatory - i,
    {
        let ghost before = rest@;
        let row = rest.remove(0);
        assert(row == given[i as int]);
        assert(rest@ =~= given.skip(i + 1));
        let len = row.len();
        outputs.push(row);
        output_lens.push(len);
        assert(outputs@ =~= given.take(i + 1));
        i = i + 1;
    }
    if rest.len() == 0 {
        assert(given.take(i as int) =~= given);
        let num_outputs = outputs.len();
        return PackedOutputs { outputs, output_lens, num_outputs };
    }
    let ghost optional_rows = rest@;
    let ghost prefix = outputs@;
    assert(i == num_mandatory);
    assert(optional_rows.len() == rest.len());
    assert(optional_rows.skip(0) =~= optional_rows);
    assert(optional_rows.take(0) =~= Seq::<Vec<T>>::empty());
    assert(prefix.add(Seq::<Vec<T>>::empty()) =~= prefix);
    let mut j: usize = 0;
    while rest.len() > 0
        invariant
            i == num_mandatory,
            i < given.len(),
            optional_rows == given.skip(i as int),
            prefix == given.take(i as int),
            mask == mask_of(optional),
            j + rest@.len() == optional_rows.len(),
            optional_rows.len() <= usize::MAX,
            rest@ == optional_rows.skip(j as int),
            outputs@ == prefix.add(requested_rows(optional_rows.take(j as int), mask)),
            output_lens@.len() == outputs@.len(),
            forall|k: int| 0 <= k < outputs@.len() ==> #[trigger] output_lens@[k] == outputs@[k]@.len(),
        decreases rest@.len(),
    {
        let row = rest.remove(0);
        assert(row == optional_rows[j as int]);
        assert(rest@ =~= optional_rows.skip(j + 1));
        let ghost next = optional_rows.take(j + 1);
        assert(next.drop_last() =~= optional_rows.take(j as int));
        assert(next.last() == row);
        let wanted = match optional {
            Some(m) => j < m.len() && m[j],
            None => false,
        };
        assert(wanted == requested(mask, j as int));
        if wanted {
            let len = row.len();
            let ghost prev = outputs@;
            outputs.push(row);
            output_lens.push(len);
            assert(outputs@ =~= prefix.add(requested_rows(next, mask)));
        } else {
            assert(requested_rows(next, mask) == requested_rows(optional_rows.take(j as int), mask));
        }
        j = j + 1;
    }
    assert(optional_rows.take(j as int) =~= optional_rows);
    let num_outputs = outputs.len();
    PackedOutputs { outputs, output_lens, num_outputs }
}

/// Output rows of several parallel runs (one per asset or per option set),
/// prepared for the caller.
pub struct PackedSimdOutputs<T> {
    pub results: Vec<PackedOutputs<T>>,
    pub num_outputs: usize,
    pub num_results: usize,
}

impl<T> PackedSimdOutputs<T> {
    /// Every run is packed as a single run would be; the reported row count
    /// (mandatory plus requested optional outputs) is that of the last run,
    /// as all runs of one call have the same outputs, or zero when there is
    /// no run.
    pub open spec fn packs(&self, results: Seq<Vec<Vec<T>>>, num_mandatory: nat, mask: Option<Seq<bool>>) -> bool {
        &&& self.results@.len() == results.len()
        &&& self.num_results == results.len()
        &&& forall|i: int| 0 <= i < results.len() ==> (#[trigger] self.results@[i]).packs(results[i]@, num_mandatory, mask)
        &&& self.num_outputs == (if results.len() == 0 { 0 } else { self.results@.last().num_outputs })
    }
}

/// Prepares the rows of several parallel runs for the caller, each run as
/// `pack_outputs` would.
pub fn pack_simd_outputs<T>(results: Vec<Vec<Vec<T>>>, num_mandatory: usize, optional: Option<&[bool]>) -> (r: PackedSimdOutputs<T>)
    ensures
        r.packs(results@, num_mandatory as nat, mask_of(optional)),
{
    let ghost given = results@;
    let num_results = results.len();
    let mut rest = results;
    let mut packed: Vec<PackedOutputs<T>> = Vec::new();
    let mut num_outputs: usize = 0;
    while rest.len() > 0
        invariant
            packed@.len() + rest@.len() == given.len(),
            rest@ == given.skip(packed@.len() as int),
            forall|i: int| 0 <= i < packed@.len() ==> (#[trigger] packed@[i]).packs(given[i]@, num_mandatory as nat, mask_of(optional)),
            num_outputs == (if packed@.len() == 0 { 0 } else { packed@.last().num_outputs }),
        decreases rest@.len(),
    {
        let ghost k = packed@.len() as int;
        let result_rows = rest.remove(0);
        assert(result_rows == given[k]);
        assert(rest@ =~= given.skip(k + 1));
        let p = pack_outputs(result_rows, num_mandatory, optional);
        num_outputs = p.num_outputs;
        packed.push(p);
    }
    PackedSimdOutputs { results: packed, num_outputs, num_results }
}

/// The number of parallel lanes a SIMD entry point can run.
#[derive(Clone, Copy, Debug, PartialEq, Eq, Structural)]
pub enum SimdLanes {
    Two,
    Four,
    Eight,
    Sixteen,
}

impl SimdLanes {
    pub open spec fn spec_count(self) -> usize {
        match self {
            SimdLanes::Two => 2,
            SimdLanes::Four => 4,
            SimdLanes::Eight => 8,
            SimdLanes::Sixteen => 16,
        }
    }

    pub fn count(&self) -> (n: usize)
        ensures
            n == self.spec_count(),
    {
        match self {
            SimdLanes::Two => 2,
            SimdLanes::Four => 4,
            SimdLanes::Eight => 8,
            SimdLanes::Sixteen => 16,
        }
    }
}

/// Chooses the lane width of a SIMD call from the caller's asset or
/// option-set count: 2, 4, 8 and 16 are supported, anything else is
/// refused as invalid input.
pub fn simd_lanes(n: usize) -> (r: Result<SimdLanes, CIndicatorError>)
    ensures
        r is Ok <==> (n == 2 || n == 4 || n == 8 || n == 16),
        r matches Ok(l) ==> l.spec_count() == n,
        r matches Err(e) ==> e == CIndicatorError::InvalidInputs,
{
    match n {
        2 => Ok(SimdLanes::Two),
        4 => Ok(SimdLanes::Four),
        8 => Ok(SimdLanes::Eight),
        16 => Ok(SimdLanes::Sixteen),
        _ => Err(CIndicatorError::InvalidInputs),
    }
}

/// A lane width is accepted exactly for its own count, so choosing the width
/// of a count that came from a width gives that width back.
pub proof fn lemma_simd_lanes_roundtrip(l: SimdLanes)
    ensures
        l.spec_count() == 2 || l.spec_count() == 4 || l.spec_count() == 8 || l.spec_count() == 16,
        forall|m: SimdLanes| m.spec_count() == l.spec_count() ==> m == l,
{
}

/// Result of a fresh indicator run: the outputs handed to the caller and,
/// on success, the state for later continuation.
pub struct CIndicatorResult<T, S> {
    pub error: CIndicatorError,
    pub outputs: Vec<Vec<T>>,
    pub output_lens: Vec<usize>,
    pub num_outputs: usize,
    pub state: Option<S>,
}

impl<T, S> CIndicatorResult<T, S> {
    /// An error result: no outputs and no state.
    pub open spec fn is_error_result(&self, e: CIndicatorError) -> bool {
        &&& self.error == e
        &&& self.outputs@.len() == 0
        &&& self.output_lens@.len() == 0
        &&& self.num_outputs == 0
        &&& self.state is None
    }

    pub fn err(e: CIndicatorError) -> (r: Self)
        ensures
            r.is_error_result(e),
    {
        CIndicatorResult {
            error: e,
            outputs: Vec::new(),
            output_lens: Vec::new(),
            num_outputs: 0,
            state: None,
        }
    }

    /// Turns the outcome of a fresh run into the caller's result: on success
    /// the rows filtered by the optional-output request and the state; on
    /// failure the error with nothing else.
    pub fn from_outcome(
        outcome: Result<(Vec<Vec<T>>, S), CIndicatorError>,
        num_mandatory: usize,
        optional: Option<&[bool]>,
    ) -> (r: Self)
        ensures
            outcome matches Ok((rows, s)) ==> {
                &&& r.error == CIndicatorError::NoError
                &&& r.state == Some(s)
                &&& (PackedOutputs { outputs: r.outputs, output_lens: r.output_lens, num_outputs: r.num_outputs }).packs(rows@, num_mandatory as nat, mask_of(optional))
            },
            outcome matches Err(e) ==> r.is_error_result(e),
            (outcome matches Err(e) ==> e != CIndicatorError::NoError) ==> (r.error == CIndicatorError::NoError <==> r.state is Some),
    {
        match outcome {
            Ok((rows, s)) => {
                let p = pack_outputs(rows, num_mandatory, optional);
                CIndicatorResult {
                    error: CIndicatorError::NoError,
                    outputs: p.outputs,
                    output_lens: p.output_lens,
                    num_outputs: p.num_outputs,
                    state: Some(s),
                }
            },
            Err(e) => Self::err(e),
        }
    }
}

/// Result of a continuation run; the state it continues is updated in place.
pub struct CBatchResult<T> {
    pub error: CIndicatorError,
    pub outputs: Vec<Vec<T>>,
    pub output_lens: Vec<usize>,
    pub num_outputs: usize,
}

impl<T> CBatchResult<T> {
    pub open spec fn is_error_result(&self, e: CIndicatorError) -> bool {
        &&& self.error == e
        &&& self.outputs@.len() == 0
        &&& self.output_lens@.len() == 0
        &&& self.num_outputs == 0
    }

    pub fn err(e: CIndicatorError) -> (r: Self)
        ensures
            r.is_error_result(e),
    {
        CBatchResult { error: e, outputs: Vec::new(), output_lens: Vec::new(), num_outputs: 0 }
    }

    /// Turns the outcome of a continuation into the caller's result.
    pub fn from_outcome(
        outcome: Result<Vec<Vec<T>>, CIndicatorError>,
        num_mandatory: usize,
        optional: Option<&[bool]>,
    ) -> (r: Self)
        ensures
            outcome matches Ok(rows) ==> {
                &&& r.error == CIndicatorError::NoError
                &&& (PackedOutputs { outputs: r.outputs, output_lens: r.output_lens, num_outputs: r.num_outputs }).packs(rows@, num_mandatory as nat, mask_of(optional))
            },
            outcome matches Err(e) ==> r.is_error_result(e),
    {
        match outcome {
            Ok(rows) => {
                let p = pack_outputs(rows, num_mandatory, optional);
                CBatchResult {
                    error: CIndicatorError::NoError,
                    outputs: p.outputs,
                    output_lens: p.output_lens,
                    num_outputs: p.num_outputs,
                }
            },
            Err(e) => Self::err(e),
        }
    }

    /// The result of a continuation asked of a missing state.
    pub fn missing_state() -> (r: Self)
        ensures
            r.is_error_result(CIndicatorError::InvalidIndicatorState),
    {
        Self::err(CIndicatorError::InvalidIndicatorState)
    }
}

/// Result of a SIMD call: one packed run and one state per lane.
pub struct CSimdResult<T, S> {
    pub error: CIndicatorError,
    pub outputs: Vec<PackedOutputs<T>>,
    pub num_outputs: usize,
    pub states: Vec<S>,
    pub num_results: usize,
}

impl<T, S> CSimdResult<T, S> {
    pub open spec fn is_error_result(&self, e: CIndicatorError) -> bool {
        &&& self.error == e
        &&& self.outputs@.len() == 0
        &&& self.num_outputs == 0
        &&& self.states@.len() == 0
        &&& self.num_results == 0
    }

    pub fn err(e: CIndicatorError) -> (r: Self)
        ensures
            r.is_error_result(e),
    {
        CSimdResult { error: e, outputs: Vec::new(), num_outputs: 0, states: Vec::new(), num_results: 0 }
    }

    /// Turns the outcome of a SIMD call into the caller's result: every
    /// lane's rows packed, and the lanes' states handed over unchanged.
    pub fn from_outcome(
        outcome: Result<(Vec<Vec<Vec<T>>>, Vec<S>), CIndicatorError>,
        num_mandatory: usize,
        optional: Option<&[bool]>,
    ) -> (r: Self)
        ensures
            outcome matches Ok((results, states)) ==> {
                &&& r.error == CIndicatorError::NoError
                &&& r.states@ == states@
                &&& (PackedSimdOutputs { results: r.outputs, num_outputs: r.num_outputs, num_results: r.num_results }).packs(results@, num_mandatory as nat, mask_of(optional))
            },
            outcome matches Err(e) ==> r.is_error_result(e),
    {
        match outcome {
            Ok((results, states)) => {
                let p = pack_simd_outputs(results, num_mandatory, optional);
                CSimdResult {
                    error: CIndicatorError::NoError,
                    outputs: p.results,
                    num_outputs: p.num_outputs,
                    states,
                    num_results: p.num_results,
                }
            },
            Err(e) => Self::err(e),
        }
    }
}

} // verus!
