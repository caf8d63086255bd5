//! Counters reported by the database.

use vstd::prelude::*;

verus! {

/// Statistics of a database.
#[derive(Debug, Clone, Default, PartialEq, Eq)]
pub struct DbStats {
    pub live_keyspaces: usize,
    pub active_snapshots: usize,
    pub memtable_bytes: u64,
    pub immutable_memtables: usize,
    pub l0_tables: usize,
    pub total_tables: usize,
    pub level_tables: Vec<LevelStats>,
    pub table_bytes: u64,
    pub wal_bytes_pending_sync: u64,
    pub live_blob_files: usize,
    pub live_blob_bytes: u64,
    pub obsolete_blob_files: usize,
    pub obsolete_blob_bytes: u64,
    pub compaction_runs: u64,
    pub compaction_input_tables: u64,
    pub compaction_output_tables: u64,
    pub compaction_input_bytes: u64,
    pub compaction_output_bytes: u64,
    pub block_cache_hits: u64,
    pub block_cache_misses: u64,
    pub filters: FilterStats,
}

/// Tables and bytes of one level.
#[derive(Debug, Clone, Default, PartialEq, Eq)]
pub struct LevelStats {
    pub level: u32,
    pub tables: usize,
    pub bytes: u64,
}

/// Filter hit, miss and false-positive counters.
#[derive(Debug, Clone, Copy, Default, PartialEq, Eq, Structural)]
pub struct FilterStats {
    pub table_point_hits: u64,
    pub table_point_misses: u64,
    pub table_point_false_positives: u64,
    pub table_prefix_hits: u64,
    pub table_prefix_misses: u64,
    pub table_prefix_false_positives: u64,
    pub block_point_hits: u64,
    pub block_point_misses: u64,
    pub block_point_false_positives: u64,
    pub block_prefix_hits: u64,
    pub block_prefix_misses: u64,
    pub block_prefix_false_positives: u64,
}

/// `a + b`, saturating at `u64::MAX`.
pub open spec fn sat_add(a: u64, b: u64) -> u64 {
    if a + b > u64::MAX {
        u64::MAX
    } else {
        (a + b) as u64
    }
}

impl FilterStats {
    /// Adds every counter of `other`, each saturating at `u64::MAX`.
    pub fn saturating_add_assign(&mut self, other: Self)
        ensures
            final(self).table_point_hits == sat_add(old(self).table_point_hits, other.table_point_hits),
            final(self).table_point_misses == sat_add(old(self).table_point_misses, other.table_point_misses),
            final(self).table_point_false_positives == sat_add(old(self).table_point_false_positives, other.table_point_false_positives),
            final(self).table_prefix_hits == sat_add(old(self).table_prefix_hits, other.table_prefix_hits),
            final(self).table_prefix_misses == sat_add(old(self).table_prefix_misses, other.table_prefix_misses),
            final(self).table_prefix_false_positives == sat_add(old(self).table_prefix_false_positives, other.table_prefix_false_positives),
            final(self).block_point_hits == sat_add(old(self).block_point_hits, other.block_point_hits),
            final(self).block_point_misses == sat_add(old(self).block_point_misses, other.block_point_misses),
            final(self).block_point_false_positives == sat_add(old(self).block_point_false_positives, other.block_point_false_positives),
            final(self).block_prefix_hits == sat_add(old(self).block_prefix_hits, other.block_prefix_hits),
            final(self).block_prefix_misses == sat_add(old(self).block_prefix_misses, other.block_prefix_misses),
            final(self).block_prefix_false_positives == sat_add(old(self).block_prefix_false_positives, other.block_prefix_false_positives),
    {
        self.table_point_hits = self.table_point_hits.saturating_add(other.table_point_hits);
        self.table_point_misses = self.table_point_misses.saturating_add(other.table_point_misses);
        self.table_point_false_positives = self.table_point_false_positives.saturating_add(other.table_point_false_positives);
        self.table_prefix_hits = self.table_prefix_hits.saturating_add(other.table_prefix_hits);
        self.table_prefix_misses = self.table_prefix_misses.saturating_add(other.table_prefix_misses);
        self.table_prefix_false_positives = self.table_prefix_false_positives.saturating_add(other.table_prefix_false_positives);
        self.block_point_hits = self.block_point_hits.saturating_add(other.block_point_hits);
        self.block_point_misses = self.block_point_misses.saturating_add(other.block_point_misses);
        self.block_point_false_positives = self.block_point_false_positives.saturating_add(other.block_point_false_positives);
        self.block_prefix_hits = self.block_prefix_hits.saturating_add(other.block_prefix_hits);
        self.block_prefix_misses = self.block_prefix_misses.saturating_add(other.block_prefix_misses);
        self.block_prefix_false_positives = self.block_prefix_false_positives.saturating_add(other.block_prefix_false_positives);
    }
}

/// How many of the tables (each a level and its file bytes) lie at `level`.
pub open spec fn level_count(tables: Seq<(u32, u64)>, level: u32) -> nat
    decreases tables.len(),
{
    if tables.len() == 0 {
        0
    } else {
        level_count(tables.drop_last(), level) + if tables.last().0 == level {
            1nat
        } else {
            0nat
        }
    }
}

/// The bytes of the tables at `level`, summed with saturation.
pub open spec fn level_bytes(tables: Seq<(u32, u64)>, level: u32) -> u64
    decreases tables.len(),
{
    if tables.len() == 0 {
        0
    } else if tables.last().0 == level {
        sat_add(level_bytes(tables.drop_last(), level), tables.last().1)
    } else {
        level_bytes(tables.drop_last(), level)
    }
}

/// The bytes of all tables, summed with saturation.
pub open spec fn all_table_bytes(tables: Seq<(u32, u64)>) -> u64
    decreases tables.len(),
{
    if tables.len() == 0 {
        0
    } else {
        sat_add(all_table_bytes(tables.drop_last()), tables.last().1)
    }
}

/// The per-level statistics of tables: one entry per level that holds a
/// table, in ascending level order, with the level's table count and bytes.
pub open spec fn level_stats_of(tables: Seq<(u32, u64)>, levels: Seq<LevelStats>) -> bool {
    &&& forall|a: int, b: int| 0 <= a < b < levels.len() ==> (#[trigger] levels[a]).level < (#[trigger] levels[b]).level
    &&& forall|k: int|
        0 <= k < levels.len() ==> {
            let e = #[trigger] levels[k];
            &&& e.tables == level_count(tables, e.level)
            &&& e.bytes == level_bytes(tables, e.level)
            &&& level_count(tables, e.level) > 0
        }
    &&& forall|level: u32|
        #[trigger] level_count(tables, level) > 0 ==> exists|k: int| 0 <= k < levels.len() && levels[k].level == level
}

/// Table statistics of a database.
pub struct TableStatsSummary {
    pub l0_tables: usize,
    pub total_tables: usize,
    pub table_bytes: u64,
    pub level_tables: Vec<LevelStats>,
}

proof fn lemma_count_bound(tables: Seq<(u32, u64)>, level: u32)
    ensures
        level_count(tables, level) <= tables.len(),
    decreases tables.len(),
{
    if tables.len() > 0 {
        lemma_count_bound(tables.drop_last(), level);
    }
}

/// Gathers the statistics of the tables of a database, each given by its
/// level and its file bytes: how many there are, how many at level 0, their
/// bytes, and the tables and bytes of each level.
pub fn table_stats(tables: &[(u32, u64)]) -> (r: TableStatsSummary)
    ensures
        r.total_tables == tables@.len(),
        r.l0_tables == level_count(tables@, 0),
        r.table_bytes == all_table_bytes(tables@),
        level_stats_of(tables@, r.level_tables@),
{
    let mut l0_tables: usize = 0;
    let mut table_bytes: u64 = 0;
    let mut levels: Vec<LevelStats> = Vec::new();
    let mut i: usize = 0;
    while i < tables.len()
        invariant
            i <= tables@.len(),
            l0_tables == level_count(tables@.take(i as int), 0),
            table_bytes == all_table_bytes(tables@.take(i as int)),
            level_stats_of(tables@.take(i as int), levels@),
        decreases tables@.len() - i,
    {
        let (level, bytes) = tables[i];
        let ghost pre = tables@.take(i as int);
        let ghost post = tables@.take(i + 1);
        proof {
            assert(post.drop_last() =~= pre);
            assert(post.last() == (level, bytes));
            lemma_count_bound(pre, 0);
            assert forall|lv: u32| level_count(post, lv) == level_count(pre, lv) + if lv == level {
                1nat
            } else {
                0nat
            } by {}
            assert forall|lv: u32| lv != level implies level_bytes(post, lv) == level_bytes(pre, lv) by {}
        }
        if level == 0 {
            l0_tables = l0_tables + 1;
        }
        table_bytes = table_bytes.saturating_add(bytes);
        let mut p: usize = 0;
        while p < levels.len() && levels[p].level < level
            invariant
                p <= levels@.len(),
                forall|k: int| 0 <= k < p ==> (#[trigger] levels@[k]).level < level,
            decreases levels@.len() - p,
        {
            p = p + 1;
        }
        let ghost old_levels = levels@;
        if p < levels.len() && levels[p].level == level {
            let current_tables = levels[p].tables;
            let current_bytes = levels[p].bytes;
            proof {
                lemma_count_bound(pre, level);
            }
            levels.set(p, LevelStats { level, tables: current_tables + 1, bytes: current_bytes.saturating_add(bytes) });
            proof {
                assert forall|lv: u32| #[trigger] level_count(post, lv) > 0 implies exists|k: int|
                    0 <= k < levels@.len() && levels@[k].level == lv by {
                    if lv == level {
                        assert(levels@[p as int].level == lv);
                    } else {
                        let k = choose|k: int| 0 <= k < old_levels.len() && old_levels[k].level == lv;
                        assert(levels@[k].level == lv);
                    }
                }
                assert forall|k: int| 0 <= k < levels@.len() implies {
                    let e = #[trigger] levels@[k];
                    &&& e.tables == level_count(post, e.level)
                    &&& e.bytes == level_bytes(post, e.level)
                    &&& level_count(post, e.level) > 0
                } by {
                    if k != p {
                        assert(levels@[k] == old_levels[k]);
                        assert(old_levels[k].level != level);
                    }
                }
                assert forall|a: int, b: int| 0 <= a < b < levels@.len() implies (#[trigger] levels@[a]).level
                    < (#[trigger] levels@[b]).level by {
                    assert(old_levels[a].level < old_levels[b].level);
                }
            }
        } else {
            proof {
                if p < old_levels.len() {
                    assert(old_levels[p as int].level > level);
                }
                assert(level_count(pre, level) == 0) by {
                    if level_count(pre, level) > 0 {
                        let k = choose|k: int| 0 <= k < old_levels.len() && old_levels[k].level == level;
                        if k < p {
                            assert(old_levels[k].level < level);
                        } else if k > p {
                            assert(old_levels[p as int].level < old_levels[k].level);
                        }
                    }
                }
                assert(level_bytes(pre, level) == 0) by {
                    lemma_zero_count_zero_bytes(pre, level);
                }
            }
            levels.insert(p, LevelStats { level, tables: 1, bytes });
            proof {
                assert(levels@ =~= old_levels.take(p as int).push(LevelStats { level, tables: 1, bytes }) + old_levels.skip(
                    p as int,
                ));
                assert forall|k: int| 0 <= k < levels@.len() implies levels@[k] == if k < p {
                    old_levels[k]
                } else if k == p {
                    LevelStats { level, tables: 1, bytes }
                } else {
                    old_levels[k - 1]
                } by {}
                assert forall|lv: u32| #[trigger] level_count(post, lv) > 0 implies exists|k: int|
                    0 <= k < levels@.len() && levels@[k].level == lv by {
                    if lv == level {
                        assert(levels@[p as int].level == lv);
                    } else {
                        let k = choose|k: int| 0 <= k < old_levels.len() && old_levels[k].level == lv;
                        if k < p {
                            assert(levels@[k].level == lv);
                        } else {
                            assert(levels@[k + 1].level == lv);
                        }
                    }
                }
                assert forall|k: int| 0 <= k < levels@.len() implies {
                    let e = #[trigger] levels@[k];
                    &&& e.tables == level_count(post, e.level)
                    &&& e.bytes == level_bytes(post, e.level)
                    &&& level_count(post, e.level) > 0
                } by {
                    if k < p {
                        assert(old_levels[k].level < level);
                    } else if k > p {
                        assert(old_levels[k - 1].level > level) by {
                            if k - 1 > p {
                                assert(old_levels[p as int].level < old_levels[k - 1].level);
                            }
                        }
                    }
                }
                assert forall|a: int, b: int| 0 <= a < b < levels@.len() implies (#[trigger] levels@[a]).level
                    < (#[trigger] levels@[b]).level by {
                    if b < p {
                        assert(old_levels[a].level < old_levels[b].level);
                    } else if b == p {
                        assert(old_levels[a].level < level);
                    } else if a < p {
                        assert(old_levels[a].level < level);
                        assert(old_levels[b - 1].level > level) by {
                            if b - 1 > p {
                                assert(old_levels[p as int].level < old_levels[b - 1].level);
                            }
                        }
                    } else if a == p {
                        assert(old_levels[b - 1].level > level) by {
                            if b - 1 > p {
                                assert(old_levels[p as int].level < old_levels[b - 1].level);
                            }
                        }
                    } else {
                        assert(old_levels[a - 1].level < old_levels[b - 1].level);
                    }
                }
            }
        }
        i = i + 1;
    }
    proof {
        assert(tables@.take(i as int) =~= tables@);
    }
    TableStatsSummary { l0_tables, total_tables: tables.len(), table_bytes, level_tables: levels }
}

proof fn lemma_zero_count_zero_bytes(tables: Seq<(u32, u64)>, level: u32)
    requires
        level_count(tables, level) == 0,
    ensures
        level_bytes(tables, level) == 0,
    decreases tables.len(),
{
    if tables.len() > 0 {
        lemma_zero_count_zero_bytes(tables.drop_last(), level);
    }
}

} // verus!
