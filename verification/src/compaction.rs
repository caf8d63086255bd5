//! Compaction planning: which tables a compaction takes and which level it
//! writes.

use vstd::prelude::*;
use crate::bytes::{bytes_le, bytes_lt, bytes_less, bytes_less_eq, lemma_bytes_order_properties};
use crate::error::{Error, ErrorKind, Result};
use crate::range_tombstone::{key_after_end, key_before_start};
use crate::table::{TableId, TableLevel, TableProperties};
use crate::types::{Bound, KeyRange, Sequence, SpecBound};

verus! {

/// A planned compaction.
#[derive(Debug, Clone, PartialEq, Eq)]
pub struct CompactionPlan {
    pub keyspace: String,
    pub input_tables: Vec<TableId>,
    pub output_level: TableLevel,
    pub oldest_active_snapshot: Sequence,
}

/// Sizing of the levels.
#[derive(Debug, Clone, Copy, PartialEq, Eq, Structural)]
pub struct CompactionOptions {
    pub target_table_bytes: u64,
    pub level_size_multiplier: u64,
    pub max_l0_files: usize,
}

/// What planning needs to know of a table.
#[derive(Debug, Clone, PartialEq, Eq)]
pub struct CompactionTable {
    pub id: TableId,
    pub level: TableLevel,
    pub bytes: u64,
    pub smallest_user_key: Vec<u8>,
    pub largest_user_key: Vec<u8>,
}

/// A span of user keys, both ends included.
#[derive(Debug, Clone, PartialEq, Eq)]
pub struct KeySpan {
    pub smallest: Vec<u8>,
    pub largest: Vec<u8>,
}

pub type SpanView = (Seq<u8>, Seq<u8>);

pub open spec fn span_view(span: KeySpan) -> SpanView {
    (span.smallest@, span.largest@)
}

impl CompactionTable {
    pub open spec fn smallest(&self) -> Seq<u8> {
        self.smallest_user_key@
    }

    pub open spec fn largest(&self) -> Seq<u8> {
        self.largest_user_key@
    }

    pub fn new(id: TableId, level: TableLevel, bytes: u64, smallest_user_key: Vec<u8>, largest_user_key: Vec<u8>) -> (r: Self)
        ensures
            r.id == id && r.level == level && r.bytes == bytes,
            r.smallest() == smallest_user_key@ && r.largest() == largest_user_key@,
    {
        CompactionTable { id, level, bytes, smallest_user_key, largest_user_key }
    }

    pub fn from_properties_with_bytes(properties: &TableProperties, bytes: u64) -> (r: Self)
        ensures
            r.id == properties.id && r.level == properties.level && r.bytes == bytes,
            r.smallest() == properties.smallest_user_key@,
            r.largest() == properties.largest_user_key@,
    {
        CompactionTable {
            id: properties.id,
            level: properties.level,
            bytes,
            smallest_user_key: crate::bytes::to_vec(properties.smallest_user_key.as_slice()),
            largest_user_key: crate::bytes::to_vec(properties.largest_user_key.as_slice()),
        }
    }

    /// The table records its key bounds (not both empty).
    pub fn has_key_bounds(&self) -> (r: bool)
        ensures
            r == has_bounds(*self),
    {
        !(self.smallest_user_key.len() == 0 && self.largest_user_key.len() == 0)
    }

    pub fn overlaps_key_span(&self, span: &KeySpan) -> (r: bool)
        ensures
            r == overlaps_span(*self, span_view(*span)),
    {
        if !self.has_key_bounds() {
            return true;
        }
        bytes_less_eq(self.smallest_user_key.as_slice(), span.largest.as_slice()) && bytes_less_eq(
            span.smallest.as_slice(),
            self.largest_user_key.as_slice(),
        )
    }

    pub fn overlaps_range(&self, range: &KeyRange) -> (r: bool)
        ensures
            r == overlaps_range(*self, *range),
    {
        if is_all_range(range) || !self.has_key_bounds() {
            return true;
        }
        !key_is_after_end(self.smallest_user_key.as_slice(), &range.end) && !key_is_before_start(
            self.largest_user_key.as_slice(),
            &range.start,
        )
    }
}

pub open spec fn has_bounds(t: CompactionTable) -> bool {
    !(t.smallest().len() == 0 && t.largest().len() == 0)
}

/// A table without bounds overlaps everything.
pub open spec fn overlaps_span(t: CompactionTable, span: SpanView) -> bool {
    !has_bounds(t) || (bytes_le(t.smallest(), span.1) && bytes_le(span.0, t.largest()))
}

pub open spec fn is_all(range: KeyRange) -> bool {
    range.start_view() is Unbounded && range.end_view() is Unbounded
}

pub open spec fn overlaps_range(t: CompactionTable, range: KeyRange) -> bool {
    is_all(range) || !has_bounds(t) || (!key_after_end(t.smallest(), range.end_view())
        && !key_before_start(t.largest(), range.start_view()))
}

fn is_all_range(range: &KeyRange) -> (r: bool)
    ensures
        r == is_all(*range),
{
    match (&range.start, &range.end) {
        (Bound::Unbounded, Bound::Unbounded) => true,
        _ => false,
    }
}

pub fn key_is_before_start(key: &[u8], start: &Bound<Vec<u8>>) -> (r: bool)
    ensures
        r == key_before_start(key@, crate::types::bound_view(*start)),
{
    match start {
        Bound::Included(s) => bytes_less(key, s.as_slice()),
        Bound::Excluded(s) => bytes_less_eq(key, s.as_slice()),
        Bound::Unbounded => false,
    }
}

pub fn key_is_after_end(key: &[u8], end: &Bound<Vec<u8>>) -> (r: bool)
    ensures
        r == key_after_end(key@, crate::types::bound_view(*end)),
{
    match end {
        Bound::Included(e) => bytes_less(e.as_slice(), key),
        Bound::Excluded(e) => bytes_less_eq(e.as_slice(), key),
        Bound::Unbounded => false,
    }
}

// ---------------------------------------------------------------- spans

/// The smaller of two byte strings, the first on a tie.
pub open spec fn bytes_min(a: Seq<u8>, b: Seq<u8>) -> Seq<u8> {
    if bytes_lt(b, a) {
        b
    } else {
        a
    }
}

/// The larger of two byte strings, the second on a tie.
pub open spec fn bytes_max(a: Seq<u8>, b: Seq<u8>) -> Seq<u8> {
    if bytes_lt(b, a) {
        a
    } else {
        b
    }
}

/// The span covered by the bounded tables among the first `n` whose ids are
/// in `inputs`.
pub open spec fn key_span(tables: Seq<CompactionTable>, inputs: Seq<TableId>, n: int) -> Option<SpanView>
    decreases n,
{
    if n <= 0 {
        None
    } else {
        let prev = key_span(tables, inputs, n - 1);
        let t = tables[n - 1];
        if inputs.contains(t.id) && has_bounds(t) {
            match prev {
                Some(span) => Some((bytes_min(span.0, t.smallest()), bytes_max(span.1, t.largest()))),
                None => Some((t.smallest(), t.largest())),
            }
        } else {
            prev
        }
    }
}

pub fn contains_id(ids: &Vec<TableId>, id: TableId) -> (r: bool)
    ensures
        r == ids@.contains(id),
{
    let mut i: usize = 0;
    while i < ids.len()
        invariant
            i <= ids@.len(),
            forall|j: int| 0 <= j < i ==> ids@[j] != id,
        decreases ids@.len() - i,
    {
        if ids[i] == id {
            return true;
        }
        i = i + 1;
    }
    false
}

fn min_bytes(a: Vec<u8>, b: &[u8]) -> (r: Vec<u8>)
    ensures
        r@ == bytes_min(a@, b@),
{
    if bytes_less(b, a.as_slice()) {
        crate::bytes::to_vec(b)
    } else {
        a
    }
}

fn max_bytes(a: Vec<u8>, b: &[u8]) -> (r: Vec<u8>)
    ensures
        r@ == bytes_max(a@, b@),
{
    if bytes_less(b, a.as_slice()) {
        a
    } else {
        crate::bytes::to_vec(b)
    }
}

pub fn key_span_for_inputs(tables: &[CompactionTable], input_tables: &Vec<TableId>) -> (r: Option<KeySpan>)
    ensures
        match r {
            Some(span) => key_span(tables@, input_tables@, tables@.len() as int) == Some(span_view(span)),
            None => key_span(tables@, input_tables@, tables@.len() as int) is None,
        },
{
    let mut span: Option<KeySpan> = None;
    let mut i: usize = 0;
    while i < tables.len()
        invariant
            i <= tables@.len(),
            match span {
                Some(sp) => key_span(tables@, input_tables@, i as int) == Some(span_view(sp)),
                None => key_span(tables@, input_tables@, i as int) is None,
            },
        decreases tables@.len() - i,
    {
        let table = &tables[i];
        if contains_id(input_tables, table.id) && table.has_key_bounds() {
            span = match span {
                Some(current) => Some(
                    KeySpan {
                        smallest: min_bytes(current.smallest, table.smallest_user_key.as_slice()),
                        largest: max_bytes(current.largest, table.largest_user_key.as_slice()),
                    },
                ),
                None => Some(
                    KeySpan {
                        smallest: crate::bytes::to_vec(table.smallest_user_key.as_slice()),
                        largest: crate::bytes::to_vec(table.largest_user_key.as_slice()),
                    },
                ),
            };
        }
        i = i + 1;
    }
    span
}

// ---------------------------------------------------------------- input selection

/// `inputs` after adding, in table order, each table of `level` among the
/// first `n` that overlaps `span` (every table, without a span) and is not
/// an input yet.
pub open spec fn include_level(tables: Seq<CompactionTable>, inputs: Seq<TableId>, level: TableLevel, span: Option<SpanView>, n: int) -> Seq<TableId>
    decreases n,
{
    if n <= 0 {
        inputs
    } else {
        let prev = include_level(tables, inputs, level, span, n - 1);
        let t = tables[n - 1];
        let overlaps = match span {
            Some(sp) => overlaps_span(t, sp),
            None => true,
        };
        if t.level == level && overlaps && !prev.contains(t.id) {
            prev.push(t.id)
        } else {
            prev
        }
    }
}

/// Ids of the tables among the first `n` of `level` that overlap `range`.
pub open spec fn level_ids(tables: Seq<CompactionTable>, level: TableLevel, range: KeyRange, n: int) -> Seq<TableId>
    decreases n,
{
    if n <= 0 {
        Seq::empty()
    } else {
        let prev = level_ids(tables, level, range, n - 1);
        let t = tables[n - 1];
        if t.level == level && overlaps_range(t, range) {
            prev.push(t.id)
        } else {
            prev
        }
    }
}

/// Every id is that of a table.
pub open spec fn ids_of_tables(tables: Seq<CompactionTable>, ids: Seq<TableId>) -> bool {
    forall|i: int| 0 <= i < ids.len() ==> exists|j: int| 0 <= j < tables.len() && tables[j].id == #[trigger] ids[i]
}

pub open spec fn table_ids(tables: Seq<CompactionTable>) -> Set<TableId> {
    tables.map_values(|t: CompactionTable| t.id).to_set()
}

proof fn lemma_include_level(tables: Seq<CompactionTable>, inputs: Seq<TableId>, level: TableLevel, span: Option<SpanView>, n: int)
    requires
        0 <= n <= tables.len(),
        ids_of_tables(tables, inputs),
    ensures
        ids_of_tables(tables, include_level(tables, inputs, level, span, n)),
        inputs.is_prefix_of(include_level(tables, inputs, level, span, n)),
        include_level(tables, inputs, level, span, n).len() > inputs.len() ==> exists|x: TableId|
            include_level(tables, inputs, level, span, n).contains(x) && !inputs.contains(x),
    decreases n,
{
    if n > 0 {
        lemma_include_level(tables, inputs, level, span, n - 1);
        let prev = include_level(tables, inputs, level, span, n - 1);
        let r = include_level(tables, inputs, level, span, n);
        if r != prev {
            assert forall|i: int| 0 <= i < r.len() implies exists|j: int|
                0 <= j < tables.len() && tables[j].id == #[trigger] r[i] by {
                if i == r.len() - 1 {
                    assert(tables[n - 1].id == r[i]);
                } else {
                    assert(r[i] == prev[i]);
                }
            }
            let x = tables[n - 1].id;
            assert(r[r.len() - 1] == x);
            if inputs.contains(x) {
                let k = choose|k: int| 0 <= k < inputs.len() && inputs[k] == x;
                assert(prev[k] == x);
            }
            assert(r.contains(x));
        } else if r.len() > inputs.len() {
            let x = choose|x: TableId| prev.contains(x) && !inputs.contains(x);
            assert(r.contains(x));
        }
    }
}

/// The inputs never hold more distinct ids than the tables.
proof fn lemma_ids_bounded(tables: Seq<CompactionTable>, ids: Seq<TableId>)
    requires
        ids_of_tables(tables, ids),
    ensures
        ids.to_set().subset_of(table_ids(tables)),
        ids.to_set().len() <= table_ids(tables).len(),
        table_ids(tables).len() <= tables.len(),
{
    let all = tables.map_values(|t: CompactionTable| t.id);
    all.lemma_cardinality_of_set();
    assert forall|x: TableId| ids.to_set().contains(x) implies all.to_set().contains(x) by {
        let i = choose|i: int| 0 <= i < ids.len() && ids[i] == x;
        let j = choose|j: int| 0 <= j < tables.len() && tables[j].id == ids[i];
        assert(all[j] == x);
    }
    vstd::seq_lib::seq_to_set_is_finite(all);
    vstd::set_lib::lemma_len_subset(ids.to_set(), all.to_set());
}

/// A pass that adds an id adds a distinct one.
proof fn lemma_growth(old_ids: Seq<TableId>, new_ids: Seq<TableId>, x: TableId, bound: Set<TableId>)
    requires
        old_ids.is_prefix_of(new_ids),
        new_ids.contains(x),
        !old_ids.contains(x),
        new_ids.to_set().subset_of(bound),
        bound.finite(),
    ensures
        old_ids.to_set().len() < new_ids.to_set().len(),
{
    assert(old_ids.to_set().insert(x).subset_of(new_ids.to_set())) by {
        assert forall|y: TableId| old_ids.to_set().insert(x).contains(y) implies new_ids.to_set().contains(y) by {
            if y != x {
                let i = choose|i: int| 0 <= i < old_ids.len() && old_ids[i] == y;
                assert(new_ids[i] == y);
            }
        }
    }
    vstd::set_lib::lemma_len_subset(new_ids.to_set(), bound);
    vstd::set_lib::lemma_len_subset(old_ids.to_set().insert(x), new_ids.to_set());
    vstd::seq_lib::seq_to_set_is_finite(old_ids);
}

pub fn include_overlapping_level(tables: &[CompactionTable], input_tables: &mut Vec<TableId>, level: TableLevel, span: Option<&KeySpan>)
    ensures
        final(input_tables)@ == include_level(
            tables@,
            old(input_tables)@,
            level,
            match span {
                Some(sp) => Some(span_view(*sp)),
                None => None,
            },
            tables@.len() as int,
        ),
{
    let ghost sp = match span {
        Some(s) => Some(span_view(*s)),
        None => None,
    };
    let ghost start = input_tables@;
    let mut i: usize = 0;
    while i < tables.len()
        invariant
            i <= tables@.len(),
            input_tables@ == include_level(tables@, start, level, sp, i as int),
            sp == match span {
                Some(s) => Some(span_view(*s)),
                None => None::<SpanView>,
            },
        decreases tables@.len() - i,
    {
        let table = &tables[i];
        let overlaps = match span {
            Some(s) => table.overlaps_key_span(s),
            None => table.overlaps_range(&KeyRange::all()),
        };
        if table.level == level && overlaps && !contains_id(input_tables, table.id) {
            input_tables.push(table.id);
        }
        i = i + 1;
    }
}

fn level_tables_overlapping(tables: &[CompactionTable], level: TableLevel, range: &KeyRange) -> (r: Vec<TableId>)
    ensures
        r@ == level_ids(tables@, level, *range, tables@.len() as int),
{
    let mut ids: Vec<TableId> = Vec::new();
    let mut i: usize = 0;
    while i < tables.len()
        invariant
            i <= tables@.len(),
            ids@ == level_ids(tables@, level, *range, i as int),
        decreases tables@.len() - i,
    {
        if tables[i].level == level && tables[i].overlaps_range(range) {
            ids.push(tables[i].id);
        }
        i = i + 1;
    }
    ids
}

proof fn lemma_level_ids(tables: Seq<CompactionTable>, level: TableLevel, range: KeyRange, n: int)
    requires
        0 <= n <= tables.len(),
    ensures
        ids_of_tables(tables, level_ids(tables, level, range, n)),
    decreases n,
{
    if n > 0 {
        lemma_level_ids(tables, level, range, n - 1);
        let prev = level_ids(tables, level, range, n - 1);
        let r = level_ids(tables, level, range, n);
        assert forall|i: int| 0 <= i < r.len() implies exists|j: int|
            0 <= j < tables.len() && tables[j].id == #[trigger] r[i] by {
            if i < prev.len() {
                assert(r[i] == prev[i]);
            } else {
                assert(tables[n - 1].id == r[i]);
            }
        }
    }
}

/// Repeated passes that add every level-0 table touching the span of the
/// inputs, until a pass adds nothing.
pub open spec fn l0_closure(tables: Seq<CompactionTable>, inputs: Seq<TableId>, fuel: nat) -> Seq<TableId>
    decreases fuel,
{
    if fuel == 0 {
        inputs
    } else {
        match key_span(tables, inputs, tables.len() as int) {
            None => inputs,
            Some(span) => {
                let next = include_level(tables, inputs, TableLevel(0), Some(span), tables.len() as int);
                if next.len() == inputs.len() {
                    inputs
                } else {
                    l0_closure(tables, next, (fuel - 1) as nat)
                }
            },
        }
    }
}

/// The level-0 tables that overlap the range, together with every level-0
/// table that overlaps them, directly or through others.
pub open spec fn l0_inputs(tables: Seq<CompactionTable>, range: KeyRange) -> Seq<TableId> {
    let initial = level_ids(tables, TableLevel(0), range, tables.len() as int);
    if initial.len() == 0 {
        initial
    } else {
        l0_closure(tables, initial, (tables.len() + 1) as nat)
    }
}

pub fn l0_inputs_with_overlap(tables: &[CompactionTable], range: &KeyRange) -> (r: Vec<TableId>)
    ensures
        r@ == l0_inputs(tables@, *range),
{
    let mut inputs = level_tables_overlapping(tables, TableLevel(0), range);
    if inputs.len() == 0 {
        return inputs;
    }
    let ghost initial = inputs@;
    let ghost bound = table_ids(tables@);
    let ghost mut fuel: nat = (tables@.len() + 1) as nat;
    proof {
        lemma_level_ids(tables@, TableLevel(0), *range, tables@.len() as int);
        lemma_ids_bounded(tables@, inputs@);
    }
    loop
        invariant
            ids_of_tables(tables@, inputs@),
            bound == table_ids(tables@),
            bound.finite(),
            inputs@.to_set().len() <= bound.len(),
            bound.len() <= tables@.len(),
            fuel >= bound.len() - inputs@.to_set().len() + 1,
            l0_closure(tables@, initial, (tables@.len() + 1) as nat) == l0_closure(tables@, inputs@, fuel),
            initial.len() > 0,
            l0_inputs(tables@, *range) == l0_closure(tables@, initial, (tables@.len() + 1) as nat),
        decreases bound.len() - inputs@.to_set().len(),
    {
        let span = match key_span_for_inputs(tables, &inputs) {
            Some(span) => span,
            None => return inputs,
        };
        let before = inputs.len();
        let ghost old_inputs = inputs@;
        include_overlapping_level(tables, &mut inputs, TableLevel(0), Some(&span));
        proof {
            lemma_include_level(tables@, old_inputs, TableLevel(0), Some(span_view(span)), tables@.len() as int);
            lemma_ids_bounded(tables@, inputs@);
        }
        if inputs.len() == before {
            proof {
                assert(inputs@ =~= old_inputs) by {
                    assert(old_inputs.is_prefix_of(inputs@));
                }
            }
            return inputs;
        }
        proof {
            let x = choose|x: TableId| inputs@.contains(x) && !old_inputs.contains(x);
            lemma_growth(old_inputs, inputs@, x, bound);
            fuel = (fuel - 1) as nat;
        }
    }
}

// ---------------------------------------------------------------- level sizes

pub open spec fn table_bytes_total(tables: Seq<CompactionTable>, n: int) -> int
    decreases n,
{
    if n <= 0 {
        0
    } else {
        table_bytes_total(tables, n - 1) + tables[n - 1].bytes
    }
}

/// Bytes of the tables of `level` among the first `n`.
pub open spec fn level_bytes_of(tables: Seq<CompactionTable>, level: TableLevel, n: int) -> int
    decreases n,
{
    if n <= 0 {
        0
    } else {
        level_bytes_of(tables, level, n - 1) + if tables[n - 1].level == level {
            tables[n - 1].bytes as int
        } else {
            0
        }
    }
}

proof fn lemma_level_bytes_bounded(tables: Seq<CompactionTable>, level: TableLevel, n: int)
    ensures
        0 <= level_bytes_of(tables, level, n) <= table_bytes_total(tables, n),
    decreases n,
{
    if n > 0 {
        lemma_level_bytes_bounded(tables, level, n - 1);
    }
}

pub fn level_bytes(tables: &[CompactionTable], level: TableLevel) -> (r: u64)
    requires
        table_bytes_total(tables@, tables@.len() as int) <= u64::MAX,
    ensures
        r == level_bytes_of(tables@, level, tables@.len() as int),
{
    let mut sum: u64 = 0;
    let mut i: usize = 0;
    while i < tables.len()
        invariant
            i <= tables@.len(),
            sum == level_bytes_of(tables@, level, i as int),
            table_bytes_total(tables@, tables@.len() as int) <= u64::MAX,
        decreases tables@.len() - i,
    {
        proof {
            lemma_level_bytes_bounded(tables@, level, i + 1);
            lemma_total_monotone(tables@, i + 1, tables@.len() as int);
        }
        if tables[i].level == level {
            sum = sum + tables[i].bytes;
        }
        i = i + 1;
    }
    sum
}

proof fn lemma_total_monotone(tables: Seq<CompactionTable>, m: int, n: int)
    requires
        m <= n,
    ensures
        table_bytes_total(tables, m) <= table_bytes_total(tables, n),
    decreases n - m,
{
    if m < n {
        lemma_total_monotone(tables, m, n - 1);
    }
}

pub open spec fn sat_mul(a: u64, b: u64) -> u64 {
    if a * b > u64::MAX {
        u64::MAX
    } else {
        (a * b) as u64
    }
}

/// Target size of a level: the target table size (at least one byte) for
/// levels 0 and 1, multiplied by the level size multiplier (at least two)
/// for each level below, saturating.
pub open spec fn target_bytes(level: u32, options: CompactionOptions) -> u64
    decreases level,
{
    if level <= 1 {
        if options.target_table_bytes < 1 {
            1
        } else {
            options.target_table_bytes
        }
    } else {
        sat_mul(
            target_bytes((level - 1) as u32, options),
            if options.level_size_multiplier < 2 {
                2
            } else {
                options.level_size_multiplier
            },
        )
    }
}

proof fn lemma_target_positive(level: u32, options: CompactionOptions)
    ensures
        target_bytes(level, options) >= 1,
    decreases level,
{
    if level > 1 {
        lemma_target_positive((level - 1) as u32, options);
        let t = target_bytes((level - 1) as u32, options);
        let m: u64 = if options.level_size_multiplier < 2 { 2 } else { options.level_size_multiplier };
        assert(t * m >= 1) by (nonlinear_arith)
            requires
                t >= 1,
                m >= 2,
        ;
    }
}

pub fn level_target_bytes(level: TableLevel, options: CompactionOptions) -> (r: u64)
    ensures
        r == target_bytes(level.0, options),
        r >= 1,
{
    proof {
        lemma_target_positive(level.0, options);
    }
    let exponent = level.get().saturating_sub(1);
    let mut target = if options.target_table_bytes < 1 {
        1
    } else {
        options.target_table_bytes
    };
    let multiplier = if options.level_size_multiplier < 2 {
        2
    } else {
        options.level_size_multiplier
    };
    let mut k: u32 = 0;
    while k < exponent
        invariant
            k <= exponent,
            exponent == if level.0 >= 1 { (level.0 - 1) as u32 } else { 0u32 },
            target == target_bytes((k + 1) as u32, options),
            multiplier == if options.level_size_multiplier < 2 { 2 } else { options.level_size_multiplier },
        decreases exponent - k,
    {
        target = match target.checked_mul(multiplier) {
            Some(v) => v,
            None => u64::MAX,
        };
        k = k + 1;
    }
    target
}

/// Level `a` is under more pressure than level `b`: its bytes over its
/// target exceed those of `b`, or they are equal and `a` is deeper.
pub open spec fn level_better(tables: Seq<CompactionTable>, a: TableLevel, b: TableLevel, options: CompactionOptions) -> bool {
    let ba = level_bytes_of(tables, a, tables.len() as int);
    let bb = level_bytes_of(tables, b, tables.len() as int);
    let ta = target_bytes(a.0, options) as int;
    let tb = target_bytes(b.0, options) as int;
    ba * tb > bb * ta || (ba * tb == bb * ta && a.0 > b.0)
}

proof fn lemma_ratio_trans(xa: int, ta: int, xb: int, tb: int, xc: int, tc: int)
    requires
        ta >= 1,
        tb >= 1,
        tc >= 1,
        xa * tb >= xb * ta,
        xb * tc >= xc * tb,
    ensures
        xa * tc >= xc * ta,
        (xa * tb > xb * ta || xb * tc > xc * tb) ==> xa * tc > xc * ta,
{
    assert(xa * tb * tc >= xb * ta * tc) by (nonlinear_arith)
        requires
            xa * tb >= xb * ta,
            tc >= 1,
    ;
    assert(xb * tc * ta >= xc * tb * ta) by (nonlinear_arith)
        requires
            xb * tc >= xc * tb,
            ta >= 1,
    ;
    assert(xa * tc >= xc * ta) by (nonlinear_arith)
        requires
            xa * tb * tc >= xb * ta * tc,
            xb * tc * ta >= xc * tb * ta,
            tb >= 1,
    ;
    if xa * tb > xb * ta {
        assert(xa * tb * tc > xb * ta * tc) by (nonlinear_arith)
            requires
                xa * tb > xb * ta,
                tc >= 1,
        ;
        assert(xa * tc > xc * ta) by (nonlinear_arith)
            requires
                xa * tb * tc > xb * ta * tc,
                xb * tc * ta >= xc * tb * ta,
                tb >= 1,
        ;
    }
    if xb * tc > xc * tb {
        assert(xb * tc * ta > xc * tb * ta) by (nonlinear_arith)
            requires
                xb * tc > xc * tb,
                ta >= 1,
        ;
        assert(xa * tc > xc * ta) by (nonlinear_arith)
            requires
                xa * tb * tc >= xb * ta * tc,
                xb * tc * ta > xc * tb * ta,
                tb >= 1,
        ;
    }
}

proof fn lemma_better_trans(tables: Seq<CompactionTable>, a: TableLevel, b: TableLevel, c: TableLevel, options: CompactionOptions)
    requires
        level_better(tables, a, b, options),
        level_better(tables, b, c, options),
    ensures
        level_better(tables, a, c, options),
{
    lemma_target_positive(a.0, options);
    lemma_target_positive(b.0, options);
    lemma_target_positive(c.0, options);
    let n = tables.len() as int;
    lemma_ratio_trans(
        level_bytes_of(tables, a, n),
        target_bytes(a.0, options) as int,
        level_bytes_of(tables, b, n),
        target_bytes(b.0, options) as int,
        level_bytes_of(tables, c, n),
        target_bytes(c.0, options) as int,
    );
}

fn level_is_better(tables: &[CompactionTable], a: TableLevel, b: TableLevel, options: CompactionOptions) -> (r: bool)
    requires
        table_bytes_total(tables@, tables@.len() as int) <= u64::MAX,
    ensures
        r == level_better(tables@, a, b, options),
{
    let ba = level_bytes(tables, a) as u128;
    let bb = level_bytes(tables, b) as u128;
    let ta = level_target_bytes(a, options) as u128;
    let tb = level_target_bytes(b, options) as u128;
    proof {
        assert(ba * tb <= u64::MAX * u64::MAX) by (nonlinear_arith)
            requires
                ba <= u64::MAX,
                tb <= u64::MAX,
        ;
        assert(bb * ta <= u64::MAX * u64::MAX) by (nonlinear_arith)
            requires
                bb <= u64::MAX,
                ta <= u64::MAX,
        ;
    }
    let left = ba * tb;
    let right = bb * ta;
    left > right || (left == right && a.get() > b.get())
}

/// A level other than 0 holding a table that overlaps the range.
pub open spec fn candidate_level(tables: Seq<CompactionTable>, range: KeyRange, level: TableLevel) -> bool {
    level.0 != 0 && exists|i: int|
        0 <= i < tables.len() && #[trigger] tables[i].level == level && overlaps_range(tables[i], range)
}

pub open spec fn over_target(tables: Seq<CompactionTable>, level: TableLevel, options: CompactionOptions) -> bool {
    level_bytes_of(tables, level, tables.len() as int) > target_bytes(level.0, options)
}

/// The level under most pressure among the candidate levels over their
/// targets (the deepest on a tie), if any.
pub open spec fn highest_scored(tables: Seq<CompactionTable>, range: KeyRange, options: CompactionOptions, level: Option<TableLevel>) -> bool {
    match level {
        Some(l) => candidate_level(tables, range, l) && over_target(tables, l, options) && forall|c: TableLevel|
            candidate_level(tables, range, c) && over_target(tables, c, options) ==> !level_better(tables, c, l, options),
        None => forall|c: TableLevel| candidate_level(tables, range, c) ==> !over_target(tables, c, options),
    }
}

pub fn highest_scored_level(tables: &[CompactionTable], range: &KeyRange, options: CompactionOptions) -> (r: Option<TableLevel>)
    requires
        table_bytes_total(tables@, tables@.len() as int) <= u64::MAX,
    ensures
        highest_scored(tables@, *range, options, r),
{
    let mut best: Option<TableLevel> = None;
    let mut i: usize = 0;
    while i < tables.len()
        invariant
            i <= tables@.len(),
            table_bytes_total(tables@, tables@.len() as int) <= u64::MAX,
            match best {
                Some(b) => candidate_level(tables@, *range, b) && over_target(tables@, b, options),
                None => true,
            },
            forall|j: int|
                0 <= j < i && tables@[j].level.0 != 0 && overlaps_range(#[trigger] tables@[j], *range)
                    && over_target(tables@, tables@[j].level, options) ==> match best {
                    Some(b) => !level_better(tables@, tables@[j].level, b, options),
                    None => false,
                },
        decreases tables@.len() - i,
    {
        let table = &tables[i];
        let level = table.level;
        if level.get() != 0 && table.overlaps_range(range) && level_bytes(tables, level) > level_target_bytes(level, options) {
            let replace = match best {
                None => true,
                Some(b) => level_is_better(tables, level, b, options),
            };
            if replace {
                proof {
                    assert(tables@[i as int].level == level);
                    assert forall|j: int|
                        0 <= j < i + 1 && tables@[j].level.0 != 0 && overlaps_range(#[trigger] tables@[j], *range)
                            && over_target(tables@, tables@[j].level, options) implies !level_better(
                        tables@,
                        tables@[j].level,
                        level,
                        options,
                    ) by {
                        let c = tables@[j].level;
                        if j == i {
                            assert(!level_better(tables@, level, level, options));
                        } else {
                            match best {
                                Some(b) => {
                                    if level_better(tables@, c, level, options) {
                                        lemma_better_trans(tables@, c, level, b, options);
                                    }
                                },
                                None => {},
                            }
                        }
                    }
                }
                best = Some(level);
            }
        }
        i = i + 1;
    }
    proof {
        match best {
            Some(b) => {
                assert forall|c: TableLevel|
                    candidate_level(tables@, *range, c) && over_target(tables@, c, options) implies !level_better(
                    tables@,
                    c,
                    b,
                    options,
                ) by {
                    let j = choose|j: int|
                        0 <= j < tables@.len() && #[trigger] tables@[j].level == c && overlaps_range(tables@[j], *range);
                }
            },
            None => {
                assert forall|c: TableLevel| candidate_level(tables@, *range, c) implies !over_target(tables@, c, options) by {
                    let j = choose|j: int|
                        0 <= j < tables@.len() && #[trigger] tables@[j].level == c && overlaps_range(tables@[j], *range);
                }
            },
        }
    }
    best
}

/// Number of tables of `level` among the first `n` that overlap the range.
pub open spec fn level_count(tables: Seq<CompactionTable>, level: TableLevel, range: KeyRange, n: int) -> nat
    decreases n,
{
    if n <= 0 {
        0
    } else {
        level_count(tables, level, range, n - 1) + if tables[n - 1].level == level && overlaps_range(tables[n - 1], range) {
            1nat
        } else {
            0nat
        }
    }
}

pub fn count_level_overlapping(tables: &[CompactionTable], level: TableLevel, range: &KeyRange) -> (r: usize)
    ensures
        r == level_count(tables@, level, *range, tables@.len() as int),
{
    let mut count: usize = 0;
    let mut i: usize = 0;
    while i < tables.len()
        invariant
            i <= tables@.len(),
            count == level_count(tables@, level, *range, i as int),
            count <= i,
        decreases tables@.len() - i,
    {
        if tables[i].level == level && tables[i].overlaps_range(range) {
            count = count + 1;
        }
        i = i + 1;
    }
    count
}

/// The shallowest level other than 0 with two or more tables that overlap
/// the range, if any.
pub open spec fn shallowest_multi(tables: Seq<CompactionTable>, range: KeyRange, level: Option<TableLevel>) -> bool {
    let n = tables.len() as int;
    match level {
        Some(l) => l.0 != 0 && level_count(tables, l, range, n) >= 2 && forall|c: TableLevel|
            c.0 != 0 && c.0 < l.0 ==> #[trigger] level_count(tables, c, range, n) < 2,
        None => forall|c: TableLevel| c.0 != 0 ==> #[trigger] level_count(tables, c, range, n) < 2,
    }
}

proof fn lemma_count_witness(tables: Seq<CompactionTable>, level: TableLevel, range: KeyRange, n: int)
    requires
        0 <= n <= tables.len(),
        level_count(tables, level, range, n) > 0,
    ensures
        exists|i: int| 0 <= i < n && #[trigger] tables[i].level == level && overlaps_range(tables[i], range),
    decreases n,
{
    if level_count(tables, level, range, n - 1) > 0 {
        lemma_count_witness(tables, level, range, n - 1);
    } else {
        assert(tables[n - 1].level == level);
    }
}

pub fn shallowest_multi_table_level(tables: &[CompactionTable], range: &KeyRange) -> (r: Option<TableLevel>)
    ensures
        shallowest_multi(tables@, *range, r),
{
    let mut best: Option<TableLevel> = None;
    let mut i: usize = 0;
    while i < tables.len()
        invariant
            i <= tables@.len(),
            match best {
                Some(b) => b.0 != 0 && level_count(tables@, b, *range, tables@.len() as int) >= 2,
                None => true,
            },
            forall|j: int|
                0 <= j < i && (#[trigger] tables@[j]).level.0 != 0 && level_count(tables@, tables@[j].level, *range, tables@.len() as int) >= 2
                    ==> match best {
                    Some(b) => b.0 <= tables@[j].level.0,
                    None => false,
                },
        decreases tables@.len() - i,
    {
        let level = tables[i].level;
        if level.get() != 0 && count_level_overlapping(tables, level, range) >= 2 {
            let replace = match best {
                None => true,
                Some(b) => level.get() < b.get(),
            };
            if replace {
                best = Some(level);
            }
        }
        i = i + 1;
    }
    proof {
        let n = tables@.len() as int;
        assert forall|c: TableLevel| c.0 != 0 && (match best {
            Some(b) => c.0 < b.0,
            None => true,
        }) implies #[trigger] level_count(tables@, c, *range, n) < 2 by {
            if level_count(tables@, c, *range, n) >= 2 {
                lemma_count_witness(tables@, c, *range, n);
                let j = choose|j: int| 0 <= j < n && #[trigger] tables@[j].level == c && overlaps_range(tables@[j], *range);
                assert(tables@[j].level.0 != 0);
            }
        }
    }
    best
}

// ---------------------------------------------------------------- plans

/// Tables of `input_level` overlapping the range, with the tables of
/// `output_level` that overlap their span.
pub open spec fn leveled(tables: Seq<CompactionTable>, range: KeyRange, input_level: TableLevel, output_level: TableLevel) -> Seq<TableId> {
    let n = tables.len() as int;
    let inputs = level_ids(tables, input_level, range, n);
    include_level(tables, inputs, output_level, key_span(tables, inputs, n), n)
}

pub fn leveled_inputs(tables: &[CompactionTable], range: &KeyRange, input_level: TableLevel, output_level: TableLevel) -> (r: Vec<TableId>)
    ensures
        r@ == leveled(tables@, *range, input_level, output_level),
{
    let mut input_tables = level_tables_overlapping(tables, input_level, range);
    let span = key_span_for_inputs(tables, &input_tables);
    match span {
        Some(sp) => include_overlapping_level(tables, &mut input_tables, output_level, Some(&sp)),
        None => include_overlapping_level(tables, &mut input_tables, output_level, None),
    }
    input_tables
}

/// What a level-0 compaction takes: the connected level-0 tables and the
/// level-1 tables under their span, when level 0 holds too many tables or
/// at least two tables are taken.
pub open spec fn l0_selection(tables: Seq<CompactionTable>, range: KeyRange, options: CompactionOptions) -> Option<Seq<TableId>> {
    let n = tables.len() as int;
    let inputs = l0_inputs(tables, range);
    if inputs.len() == 0 {
        None
    } else {
        let with_l1 = include_level(tables, inputs, TableLevel(1), key_span(tables, inputs, n), n);
        if level_count(tables, TableLevel(0), KeyRange::spec_all(), n) > options.max_l0_files || with_l1.len() >= 2 {
            Some(with_l1)
        } else {
            None
        }
    }
}

pub fn l0_compaction_inputs(tables: &[CompactionTable], range: &KeyRange, options: CompactionOptions) -> (r: Option<Vec<TableId>>)
    ensures
        match r {
            Some(ids) => l0_selection(tables@, *range, options) == Some(ids@),
            None => l0_selection(tables@, *range, options) is None,
        },
{
    let mut input_tables = l0_inputs_with_overlap(tables, range);
    if input_tables.len() == 0 {
        return None;
    }
    let l0_count = count_level_overlapping(tables, TableLevel(0), &KeyRange::all());
    let span = key_span_for_inputs(tables, &input_tables);
    match span {
        Some(sp) => include_overlapping_level(tables, &mut input_tables, TableLevel(1), Some(&sp)),
        None => include_overlapping_level(tables, &mut input_tables, TableLevel(1), None),
    }
    if l0_count > options.max_l0_files || input_tables.len() >= 2 {
        Some(input_tables)
    } else {
        None
    }
}

pub open spec fn level_overflow_fault() -> Seq<char> {
    "table level counter overflow"@
}

/// The plan chosen for these tables: a level-0 compaction if one is due;
/// else the level under most pressure over its target moved one level
/// down, if that takes any table; else the shallowest level with two or
/// more overlapping tables moved down, if that takes two or more tables.
/// `Err` when the level to move is the last one.
pub open spec fn plan_spec(tables: Seq<CompactionTable>, range: KeyRange, options: CompactionOptions, scored: Option<TableLevel>, shallow: Option<TableLevel>) -> core::result::Result<Option<(Seq<TableId>, TableLevel)>, ()> {
    match l0_selection(tables, range, options) {
        Some(ids) => Ok(Some((ids, TableLevel(1)))),
        None => {
            let scored_plan = match scored {
                Some(level) => if level.0 == u32::MAX {
                    Some(Err(()))
                } else {
                    let inputs = leveled(tables, range, level, TableLevel((level.0 + 1) as u32));
                    if inputs.len() > 0 {
                        Some(Ok(Some((inputs, TableLevel((level.0 + 1) as u32)))))
                    } else {
                        None
                    }
                },
                None => None,
            };
            match scored_plan {
                Some(result) => result,
                None => match shallow {
                    None => Ok(None),
                    Some(level) => if level.0 == u32::MAX {
                        Err(())
                    } else {
                        let inputs = leveled(tables, range, level, TableLevel((level.0 + 1) as u32));
                        if inputs.len() < 2 {
                            Ok(None)
                        } else {
                            Ok(Some((inputs, TableLevel((level.0 + 1) as u32))))
                        }
                    },
                },
            }
        },
    }
}

/// Plans the next compaction of a keyspace over `range`.
pub fn plan_compaction(keyspace: &str, tables: &[CompactionTable], range: &KeyRange, oldest_active_snapshot: Sequence, options: CompactionOptions) -> (r: Result<Option<CompactionPlan>>)
    requires
        table_bytes_total(tables@, tables@.len() as int) <= u64::MAX,
    ensures
        exists|scored: Option<TableLevel>, shallow: Option<TableLevel>|
            highest_scored(tables@, *range, options, scored) && shallowest_multi(tables@, *range, shallow)
                && match plan_spec(tables@, *range, options, scored, shallow) {
                Ok(Some((ids, level))) => r matches Ok(Some(plan)) && plan.input_tables@ == ids
                    && plan.output_level == level && plan.keyspace@ == keyspace@
                    && plan.oldest_active_snapshot == oldest_active_snapshot,
                Ok(None) => r matches Ok(None),
                Err(()) => r matches Err(e) && e.kind() == ErrorKind::Corruption && e.message_view()
                    == level_overflow_fault(),
            },
{
    let scored = highest_scored_level(tables, range, options);
    let shallow = shallowest_multi_table_level(tables, range);
    assert(highest_scored(tables@, *range, options, scored) && shallowest_multi(tables@, *range, shallow));
    match l0_compaction_inputs(tables, range, options) {
        Some(input_tables) => {
            return Ok(Some(CompactionPlan {
                keyspace: keyspace.to_owned(),
                input_tables,
                output_level: TableLevel(1),
                oldest_active_snapshot,
            }));
        },
        None => {},
    }
    match scored {
        Some(level) => {
            let output_level = match level.next() {
                Some(l) => l,
                None => return Err(Error::corruption("table level counter overflow")),
            };
            let input_tables = leveled_inputs(tables, range, level, output_level);
            if input_tables.len() > 0 {
                return Ok(Some(CompactionPlan {
                    keyspace: keyspace.to_owned(),
                    input_tables,
                    output_level,
                    oldest_active_snapshot,
                }));
            }
        },
        None => {},
    }
    let level = match shallow {
        Some(level) => level,
        None => return Ok(None),
    };
    let output_level = match level.next() {
        Some(l) => l,
        None => return Err(Error::corruption("table level counter overflow")),
    };
    let input_tables = leveled_inputs(tables, range, level, output_level);
    if input_tables.len() < 2 {
        return Ok(None);
    }
    Ok(Some(CompactionPlan { keyspace: keyspace.to_owned(), input_tables, output_level, oldest_active_snapshot }))
}

} // verus!
