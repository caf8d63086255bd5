//! The manifest: the keyspaces of a database with their options, the tables
//! of each keyspace, and the sequence from which the write-ahead log is
//! replayed. Names are kept in byte order, as the manifest file lists them.

use vstd::prelude::*;
use crate::bytes::{bytes_lt, bytes_order, compare_bytes, lemma_bytes_order_properties, lemma_bytes_order_trans, Order};
use crate::error::{Error, ErrorKind, Result};
use crate::options::BucketOptions;
use crate::prefix::PrefixExtractor;
use crate::table::{TableId, TableProperties};
use crate::text::{decimal, push_decimal};
use crate::types::Sequence;

verus! {

pub const MANIFEST_FILE_NAME: &'static str = "MANIFEST";

/// One change to the manifest.
#[derive(Debug, Clone, PartialEq, Eq)]
pub enum ManifestEdit {
    CreateKeyspace { name: String, options: BucketOptions },
    UpdateKeyspaceOptions { name: String, options: BucketOptions },
    AddTable { keyspace: String, properties: TableProperties },
    RemoveTable { keyspace: String, table_id: TableId },
    UpdateWalReplayFloor { sequence: Sequence },
}

/// The manifest file of the database at `db_path`.
pub fn manifest_path(db_path: &std::path::Path) -> (r: std::path::PathBuf)
    ensures
        r == crate::paths::joined_path(db_path, MANIFEST_FILE_NAME@),
{
    crate::paths::join_path(db_path, MANIFEST_FILE_NAME)
}

// ---------------------------------------------------------------- UTF-8

/// The UTF-8 bytes of one character: one byte below 0x80, then two, three
/// or four bytes, a lead byte with the high bits of the scalar value and
/// continuation bytes of six bits each.
pub open spec fn utf8_char(c: char) -> Seq<u8> {
    let v = c as int;
    if v < 0x80 {
        seq![v as u8]
    } else if v < 0x800 {
        seq![(0xC0 + v / 64) as u8, (0x80 + v % 64) as u8]
    } else if v < 0x10000 {
        seq![(0xE0 + v / 4096) as u8, (0x80 + (v / 64) % 64) as u8, (0x80 + v % 64) as u8]
    } else {
        seq![
            (0xF0 + v / 262144) as u8,
            (0x80 + (v / 4096) % 64) as u8,
            (0x80 + (v / 64) % 64) as u8,
            (0x80 + v % 64) as u8,
        ]
    }
}

/// The UTF-8 bytes of a text: the bytes of each character in turn.
pub open spec fn utf8_encoded(text: Seq<char>) -> Seq<u8>
    decreases text.len(),
{
    if text.len() == 0 {
        Seq::empty()
    } else {
        utf8_encoded(text.drop_last()) + utf8_char(text.last())
    }
}

/// The text that bytes hold as UTF-8, or `None` where they are not UTF-8.
pub uninterp spec fn utf8_decoded(bytes: Seq<u8>) -> Option<Seq<char>>;

/// Calls `str::as_bytes`, which gives the UTF-8 bytes of the text. The
/// contract states them, and what the standard library documents:
/// decoding them as UTF-8 gives the text back.
#[verifier::external_body]
pub(crate) fn text_bytes(text: &str) -> (r: &[u8])
    ensures
        r@ == utf8_encoded(text@),
        utf8_decoded(r@) == Some(text@),
{
    text.as_bytes()
}

/// Calls `String::from_utf8`, which checks that the bytes are UTF-8 and
/// keeps them as a string. The contract names the outcome.
#[verifier::external_body]
pub(crate) fn text_from_utf8(bytes: Vec<u8>) -> (r: Option<String>)
    ensures
        match r {
            Some(text) => utf8_decoded(bytes@) == Some(text@),
            None => utf8_decoded(bytes@) is None,
        },
{
    String::from_utf8(bytes).ok()
}

/// Texts with the same UTF-8 bytes are the same text.
pub proof fn lemma_utf8_injective(a: Seq<char>, b: Seq<char>)
    requires
        utf8_decoded(utf8_encoded(a)) == Some(a),
        utf8_decoded(utf8_encoded(b)) == Some(b),
        utf8_encoded(a) == utf8_encoded(b),
    ensures
        a == b,
{
}

// ---------------------------------------------------------------- named entries

/// The sort key of a name: its UTF-8 bytes.
pub open spec fn name_key(name: Seq<char>) -> Seq<u8> {
    utf8_encoded(name)
}

pub open spec fn names_of<V>(entries: Seq<(String, V)>) -> Seq<Seq<char>> {
    entries.map_values(|e: (String, V)| e.0@)
}

/// Names in strictly increasing byte order, each known to round-trip
/// through UTF-8.
pub open spec fn names_sorted(names: Seq<Seq<char>>) -> bool {
    &&& forall|i: int, j: int|
        0 <= i < j < names.len() ==> bytes_lt(name_key(#[trigger] names[i]), name_key(#[trigger] names[j]))
    &&& forall|i: int|
        0 <= i < names.len() ==> utf8_decoded(name_key(#[trigger] names[i])) == Some(names[i])
}

/// Position of `name` among the names, or -1.
pub open spec fn name_position(names: Seq<Seq<char>>, name: Seq<char>) -> int {
    if exists|i: int| 0 <= i < names.len() && names[i] == name {
        choose|i: int| 0 <= i < names.len() && names[i] == name
    } else {
        -1
    }
}

/// Looks a name up among sorted entries: `Ok` with its position, or `Err`
/// with the position where it would go.
fn find_name<V>(entries: &Vec<(String, V)>, name: &str) -> (r: core::result::Result<usize, usize>)
    requires
        names_sorted(names_of(entries@)),
    ensures
        ({
            let names = names_of(entries@);
            &&& utf8_decoded(name_key(name@)) == Some(name@)
            &&& match r {
                Ok(i) => i < names.len() && names[i as int] == name@ && name_position(names, name@) == i,
                Err(p) => p <= names.len() && name_position(names, name@) == -1 && (forall|j: int|
                    0 <= j < p ==> bytes_lt(name_key(#[trigger] names[j]), name_key(name@))) && (forall|j: int|
                    p <= j < names.len() ==> bytes_lt(name_key(name@), name_key(#[trigger] names[j]))),
            }
        }),
{
    let ghost names = names_of(entries@);
    let key = text_bytes(name);
    let mut i: usize = 0;
    while i < entries.len()
        invariant
            i <= entries@.len(),
            names == names_of(entries@),
            names_sorted(names),
            key@ == name_key(name@),
            utf8_decoded(key@) == Some(name@),
            forall|j: int| 0 <= j < i ==> bytes_lt(name_key(#[trigger] names[j]), name_key(name@)),
        decreases entries@.len() - i,
    {
        let entry_key = text_bytes(entries[i].0.as_str());
        assert(names[i as int] == entries@[i as int].0@);
        proof {
            lemma_bytes_order_properties(entry_key@, key@);
        }
        match compare_bytes(entry_key, key) {
            Order::Less => {},
            Order::Equal => {
                proof {
                    lemma_utf8_injective(names[i as int], name@);
                    assert forall|j: int| 0 <= j < names.len() && names[j] == name@ implies j == i by {
                        if j != i {
                            if j < i {
                                assert(bytes_lt(name_key(names[j]), name_key(names[i as int])));
                            } else {
                                assert(bytes_lt(name_key(names[i as int]), name_key(names[j])));
                            }
                            lemma_bytes_order_properties(name_key(names[j]), name_key(names[i as int]));
                        }
                    }
                }
                return Ok(i);
            },
            Order::Greater => {
                proof {
                    assert forall|j: int| i <= j < names.len() implies bytes_lt(name_key(name@), name_key(#[trigger] names[j])) by {
                        if j > i {
                            lemma_bytes_order_trans(name_key(name@), name_key(names[i as int]), name_key(names[j]));
                            lemma_bytes_order_properties(name_key(name@), name_key(names[j]));
                            lemma_bytes_order_properties(name_key(names[i as int]), name_key(names[j]));
                        }
                    }
                    assert forall|j: int| 0 <= j < names.len() implies names[j] != name@ by {
                        lemma_bytes_order_properties(name_key(names[j]), name_key(name@));
                    }
                }
                return Err(i);
            },
        }
        i = i + 1;
    }
    proof {
        assert forall|j: int| 0 <= j < names.len() implies names[j] != name@ by {
            lemma_bytes_order_properties(name_key(names[j]), name_key(name@));
        }
    }
    Err(i)
}

/// Inserting at the position `find_name` reports keeps the names sorted.
proof fn lemma_insert_sorted<V>(entries: Seq<(String, V)>, p: int, e: (String, V))
    requires
        names_sorted(names_of(entries)),
        0 <= p <= entries.len(),
        utf8_decoded(name_key(e.0@)) == Some(e.0@),
        forall|j: int| 0 <= j < p ==> bytes_lt(name_key(#[trigger] names_of(entries)[j]), name_key(e.0@)),
        forall|j: int| p <= j < entries.len() ==> bytes_lt(name_key(e.0@), name_key(#[trigger] names_of(entries)[j])),
    ensures
        names_sorted(names_of(entries.insert(p, e))),
        names_of(entries.insert(p, e)) == names_of(entries).insert(p, e.0@),
{
    let names = names_of(entries);
    let new_names = names_of(entries.insert(p, e));
    assert(new_names =~= names.insert(p, e.0@));
    assert forall|i: int, j: int| 0 <= i < j < new_names.len() implies bytes_lt(
        name_key(#[trigger] new_names[i]),
        name_key(#[trigger] new_names[j]),
    ) by {
        if i < p && j > p {
            lemma_bytes_order_trans(name_key(names[i]), name_key(e.0@), name_key(names[j - 1]));
            lemma_bytes_order_properties(name_key(names[i]), name_key(names[j - 1]));
            lemma_bytes_order_properties(name_key(names[i]), name_key(e.0@));
            lemma_bytes_order_properties(name_key(e.0@), name_key(names[j - 1]));
        }
    }
}

// ---------------------------------------------------------------- options

/// Options with the same meaning (a custom extractor compared by its name).
pub open spec fn same_options(a: BucketOptions, b: BucketOptions) -> bool {
    &&& a.allow_empty_keys == b.allow_empty_keys
    &&& a.compression == b.compression
    &&& a.block_bytes == b.block_bytes
    &&& a.filter_policy == b.filter_policy
    &&& same_extractor(a.prefix_extractor, b.prefix_extractor)
    &&& a.prefix_filter_policy == b.prefix_filter_policy
    &&& a.index_search_policy == b.index_search_policy
    &&& a.blob_threshold_bytes == b.blob_threshold_bytes
}

pub open spec fn same_extractor(a: PrefixExtractor, b: PrefixExtractor) -> bool {
    match (a, b) {
        (PrefixExtractor::FixedLen(x), PrefixExtractor::FixedLen(y)) => x == y,
        (PrefixExtractor::Separator(x), PrefixExtractor::Separator(y)) => x == y,
        (PrefixExtractor::Custom(x), PrefixExtractor::Custom(y)) => x@ == y@,
        (PrefixExtractor::Disabled, PrefixExtractor::Disabled) => true,
        _ => false,
    }
}

fn extractors_equal(a: &PrefixExtractor, b: &PrefixExtractor) -> (r: bool)
    ensures
        r == same_extractor(*a, *b),
{
    match (a, b) {
        (PrefixExtractor::FixedLen(x), PrefixExtractor::FixedLen(y)) => *x == *y,
        (PrefixExtractor::Separator(x), PrefixExtractor::Separator(y)) => *x == *y,
        (PrefixExtractor::Custom(x), PrefixExtractor::Custom(y)) => *x == *y,
        (PrefixExtractor::Disabled, PrefixExtractor::Disabled) => true,
        _ => false,
    }
}

pub fn options_equal(a: &BucketOptions, b: &BucketOptions) -> (r: bool)
    ensures
        r == same_options(*a, *b),
{
    a.allow_empty_keys == b.allow_empty_keys && a.compression == b.compression && a.block_bytes
        == b.block_bytes && a.filter_policy == b.filter_policy && extractors_equal(
        &a.prefix_extractor,
        &b.prefix_extractor,
    ) && a.prefix_filter_policy == b.prefix_filter_policy && a.index_search_policy
        == b.index_search_policy && a.blob_threshold_bytes == b.blob_threshold_bytes
}

// ---------------------------------------------------------------- state

/// What the manifest records.
#[derive(Debug, PartialEq, Eq)]
pub struct ManifestState {
    wal_replay_floor: Sequence,
    keyspaces: Vec<(String, BucketOptions)>,
    tables: Vec<(String, Vec<TableProperties>)>,
}

impl ManifestState {
    pub closed spec fn spec_wal_replay_floor(&self) -> u64 {
        self.wal_replay_floor.spec_get()
    }

    /// A state made of lists that are sorted by name without repeats.
    pub(crate) fn from_parts(
        wal_replay_floor: Sequence,
        keyspaces: Vec<(String, BucketOptions)>,
        tables: Vec<(String, Vec<TableProperties>)>,
    ) -> (r: Self)
        requires
            names_sorted(names_of(keyspaces@)),
            names_sorted(names_of(tables@)),
        ensures
            r.spec_wal_replay_floor() == wal_replay_floor.spec_get(),
            r.spec_keyspaces() == keyspaces@,
            r.spec_tables() == tables@,
    {
        ManifestState { wal_replay_floor, keyspaces, tables }
    }

    /// The keyspaces with their options, in name order.
    pub closed spec fn spec_keyspaces(&self) -> Seq<(String, BucketOptions)> {
        self.keyspaces@
    }

    /// The tables of each keyspace, in name order.
    pub closed spec fn spec_tables(&self) -> Seq<(String, Vec<TableProperties>)> {
        self.tables@
    }

    /// The keyspaces by name, with their options.
    pub open spec fn keyspace_entries(&self) -> KeyspacesView {
        keyspaces_view(self.spec_keyspaces())
    }

    /// The table lists by keyspace name.
    pub open spec fn table_entries(&self) -> TablesView {
        tables_view(self.spec_tables())
    }

    /// Both lists are sorted by name without repeats.
    pub open spec fn well_formed(&self) -> bool {
        names_sorted(names_of(self.spec_keyspaces())) && names_sorted(names_of(self.spec_tables()))
    }

    #[verifier::type_invariant]
    spec fn names_in_order(self) -> bool {
        self.well_formed()
    }


    /// A manifest without keyspaces or tables, replaying the log from the
    /// start.
    pub fn empty() -> (r: Self)
        ensures
            r.well_formed(),
            r.spec_wal_replay_floor() == 0,
            r.spec_keyspaces().len() == 0,
            r.spec_tables().len() == 0,
    {
        let keyspaces: Vec<(String, BucketOptions)> = Vec::new();
        let tables: Vec<(String, Vec<TableProperties>)> = Vec::new();
        proof {
            assert(names_of(keyspaces@).len() == 0);
            assert(names_of(tables@).len() == 0);
        }
        ManifestState { wal_replay_floor: Sequence::zero(), keyspaces, tables }
    }

    pub fn wal_replay_floor(&self) -> (r: Sequence)
        ensures
            r.spec_get() == self.spec_wal_replay_floor(),
    {
        self.wal_replay_floor
    }

    pub fn keyspaces(&self) -> (r: &[(String, BucketOptions)])
        ensures
            r@ == self.spec_keyspaces(),
            self.well_formed(),
    {
        proof {
            use_type_invariant(self);
        }
        self.keyspaces.as_slice()
    }

    pub fn tables(&self) -> (r: &[(String, Vec<TableProperties>)])
        ensures
            r@ == self.spec_tables(),
            self.well_formed(),
    {
        proof {
            use_type_invariant(self);
        }
        self.tables.as_slice()
    }

    /// One more than the largest table id recorded, or 1 when there is no
    /// table; fails when that would pass `u64::MAX`.
    pub fn next_table_id(&self) -> (r: Result<TableId>)
        ensures
            match r {
                Ok(id) => max_table_id(self.spec_tables()) < u64::MAX && id.0 == max_table_id(self.spec_tables()) + 1,
                Err(e) => max_table_id(self.spec_tables()) == u64::MAX && e.kind() == ErrorKind::Corruption,
            },
    {
        let mut highest: u64 = 0;
        let mut i: usize = 0;
        while i < self.tables.len()
            invariant
                i <= self.tables@.len(),
                highest == max_table_id(self.tables@.take(i as int)),
            decreases self.tables@.len() - i,
        {
            let list = &self.tables[i].1;
            let mut j: usize = 0;
            let ghost before = highest;
            while j < list.len()
                invariant
                    j <= list@.len(),
                    highest == max_id_in(list@.take(j as int), before),
                decreases list@.len() - j,
            {
                proof {
                    assert(list@.take(j + 1).drop_last() =~= list@.take(j as int));
                }
                let id = list[j].id.get();
                if id > highest {
                    highest = id;
                }
                j = j + 1;
            }
            proof {
                assert(list@.take(list@.len() as int) =~= list@);
                assert(self.tables@.take(i + 1).drop_last() =~= self.tables@.take(i as int));
            }
            i = i + 1;
        }
        proof {
            assert(self.tables@.take(self.tables@.len() as int) =~= self.tables@);
        }
        match highest.checked_add(1) {
            Some(next) => Ok(TableId(next)),
            None => Err(Error::corruption("table id counter overflow")),
        }
    }
}

impl Clone for ManifestState {
    /// A copy with the same names in the same order and the same replay
    /// floor; options and table properties are copied by their own `clone`.
    fn clone(&self) -> (r: Self)
        ensures
            names_of(r.spec_keyspaces()) == names_of(self.spec_keyspaces()),
            names_of(r.spec_tables()) == names_of(self.spec_tables()),
            r.spec_wal_replay_floor() == self.spec_wal_replay_floor(),
    {
        proof {
            use_type_invariant(self);
        }
        let mut keyspaces: Vec<(String, BucketOptions)> = Vec::new();
        let mut i: usize = 0;
        while i < self.keyspaces.len()
            invariant
                i <= self.keyspaces@.len(),
                keyspaces@.len() == i,
                names_of(keyspaces@) == names_of(self.keyspaces@.take(i as int)),
            decreases self.keyspaces@.len() - i,
        {
            let name = self.keyspaces[i].0.clone();
            let value = self.keyspaces[i].1.clone();
            let ghost before = keyspaces@;
            keyspaces.push((name, value));
            proof {
                assert(name@ == self.keyspaces@[i as int].0@);
                assert forall|k: int| 0 <= k < keyspaces@.len() implies #[trigger] names_of(keyspaces@)[k] == names_of(self.keyspaces@.take(i + 1))[k] by {
                    if k < i {
                        assert(keyspaces@[k] == before[k]);
                        assert(names_of(before)[k] == names_of(self.keyspaces@.take(i as int))[k]);
                    }
                }
                assert(names_of(keyspaces@) =~= names_of(self.keyspaces@.take(i + 1)));
            }
            i = i + 1;
        }
        let mut tables: Vec<(String, Vec<TableProperties>)> = Vec::new();
        let mut j: usize = 0;
        while j < self.tables.len()
            invariant
                j <= self.tables@.len(),
                tables@.len() == j,
                names_of(tables@) == names_of(self.tables@.take(j as int)),
            decreases self.tables@.len() - j,
        {
            let name = self.tables[j].0.clone();
            let value = self.tables[j].1.clone();
            let ghost before = tables@;
            tables.push((name, value));
            proof {
                assert(name@ == self.tables@[j as int].0@);
                assert forall|k: int| 0 <= k < tables@.len() implies #[trigger] names_of(tables@)[k] == names_of(self.tables@.take(j + 1))[k] by {
                    if k < j {
                        assert(tables@[k] == before[k]);
                        assert(names_of(before)[k] == names_of(self.tables@.take(j as int))[k]);
                    }
                }
                assert(names_of(tables@) =~= names_of(self.tables@.take(j + 1)));
            }
            j = j + 1;
        }
        proof {
            assert(self.keyspaces@.take(self.keyspaces@.len() as int) =~= self.keyspaces@);
            assert(self.tables@.take(self.tables@.len() as int) =~= self.tables@);
        }
        ManifestState { wal_replay_floor: self.wal_replay_floor, keyspaces, tables }
    }
}

/// The largest id among `start` and the ids of the tables.
pub open spec fn max_id_in(tables: Seq<TableProperties>, start: u64) -> u64
    decreases tables.len(),
{
    if tables.len() == 0 {
        start
    } else {
        let rest = max_id_in(tables.drop_last(), start);
        if tables.last().id.0 > rest {
            tables.last().id.0
        } else {
            rest
        }
    }
}

/// The largest table id recorded, or 0.
pub open spec fn max_table_id(tables: Seq<(String, Vec<TableProperties>)>) -> u64
    decreases tables.len(),
{
    if tables.len() == 0 {
        0
    } else {
        max_id_in(tables.last().1@, max_table_id(tables.drop_last()))
    }
}

// ---------------------------------------------------------------- table lists

pub type TablesView = Seq<(Seq<char>, Seq<TableProperties>)>;

pub type KeyspacesView = Seq<(Seq<char>, BucketOptions)>;

pub open spec fn keyspaces_view(entries: Seq<(String, BucketOptions)>) -> KeyspacesView {
    entries.map_values(|e: (String, BucketOptions)| (e.0@, e.1))
}

pub open spec fn tables_view(tables: Seq<(String, Vec<TableProperties>)>) -> TablesView {
    tables.map_values(|e: (String, Vec<TableProperties>)| (e.0@, e.1@))
}

/// The names of named entries, in order.
pub open spec fn entry_names<V>(v: Seq<(Seq<char>, V)>) -> Seq<Seq<char>> {
    v.map_values(|e: (Seq<char>, V)| e.0)
}

/// Number of entries whose name sorts before `name`: where `name` goes.
pub open spec fn sorted_position(names: Seq<Seq<char>>, name: Seq<char>) -> int {
    names.filter(|n: Seq<char>| bytes_lt(name_key(n), name_key(name))).len() as int
}

pub(crate) proof fn lemma_sorted_position(names: Seq<Seq<char>>, name: Seq<char>, p: int)
    requires
        0 <= p <= names.len(),
        forall|j: int| 0 <= j < p ==> bytes_lt(name_key(#[trigger] names[j]), name_key(name)),
        forall|j: int| p <= j < names.len() ==> bytes_lt(name_key(name), name_key(#[trigger] names[j])),
    ensures
        sorted_position(names, name) == p,
    decreases names.len(),
{
    reveal(Seq::filter);
    let pred = |n: Seq<char>| bytes_lt(name_key(n), name_key(name));
    if names.len() > 0 {
        let dl = names.drop_last();
        let last = names.last();
        if p == names.len() {
            assert forall|j: int| 0 <= j < p - 1 implies bytes_lt(name_key(#[trigger] dl[j]), name_key(name)) by {
                assert(dl[j] == names[j]);
            }
            lemma_sorted_position(dl, name, p - 1);
            assert(pred(last));
        } else {
            assert forall|j: int| 0 <= j < p implies bytes_lt(name_key(#[trigger] dl[j]), name_key(name)) by {
                assert(dl[j] == names[j]);
            }
            assert forall|j: int| p <= j < dl.len() implies bytes_lt(name_key(name), name_key(#[trigger] dl[j])) by {
                assert(dl[j] == names[j]);
            }
            lemma_sorted_position(dl, name, p);
            lemma_bytes_order_properties(name_key(last), name_key(name));
            assert(!pred(last));
        }
    }
}

/// Sets the value of a name, adding the name at its place in byte order
/// where it is new (what `BTreeMap::insert` does to a sorted map).
pub open spec fn put_entry<V>(v: Seq<(Seq<char>, V)>, name: Seq<char>, value: V) -> Seq<(Seq<char>, V)> {
    let p = name_position(entry_names(v), name);
    if p >= 0 {
        v.update(p, (name, value))
    } else {
        v.insert(sorted_position(entry_names(v), name), (name, value))
    }
}

/// Adds a table to the list of its keyspace, starting a list for a
/// keyspace that has none.
pub open spec fn add_table(v: TablesView, name: Seq<char>, table: TableProperties) -> TablesView {
    let p = name_position(entry_names(v), name);
    if p >= 0 {
        v.update(p, (name, v[p].1.push(table)))
    } else {
        v.insert(sorted_position(entry_names(v), name), (name, seq![table]))
    }
}

/// Adds the tables in order.
pub open spec fn add_tables_spec(v: TablesView, additions: Seq<(Seq<char>, TableProperties)>) -> TablesView
    decreases additions.len(),
{
    if additions.len() == 0 {
        v
    } else {
        add_table(add_tables_spec(v, additions.drop_last()), additions.last().0, additions.last().1)
    }
}

/// A list of table ids holds `id`.
pub open spec fn ids_contain(ids: Seq<TableId>, id: TableId) -> bool {
    exists|i: int| 0 <= i < ids.len() && ids[i] == id
}

/// Takes the removed tables out of a keyspace's list and appends the
/// replacement, if any.
pub open spec fn replace_in(v: TablesView, name: Seq<char>, removed: Seq<TableId>, replacement: Option<TableProperties>) -> TablesView {
    let p = name_position(entry_names(v), name);
    let kept = v[p].1.filter(|t: TableProperties| !ids_contain(removed, t.id));
    v.update(
        p,
        (
            name,
            match replacement {
                Some(t) => kept.push(t),
                None => kept,
            },
        ),
    )
}

/// A compaction edit: a keyspace, the ids of the tables that leave it,
/// and the table that replaces them, if any.
pub type Replacement = (String, Vec<TableId>, Option<TableProperties>);

pub type ReplacementView = (Seq<char>, Seq<TableId>, Option<TableProperties>);

pub open spec fn replace_all(v: TablesView, replacements: Seq<ReplacementView>) -> TablesView
    decreases replacements.len(),
{
    if replacements.len() == 0 {
        v
    } else {
        let r = replacements.last();
        replace_in(replace_all(v, replacements.drop_last()), r.0, r.1, r.2)
    }
}


/// The name of each addition, with its table.
pub open spec fn additions_view(additions: Seq<(String, TableProperties)>) -> Seq<(Seq<char>, TableProperties)> {
    additions.map_values(|e: (String, TableProperties)| (e.0@, e.1))
}

pub open spec fn replacements_view(replacements: Seq<Replacement>) -> Seq<ReplacementView> {
    replacements.map_values(|e: Replacement| (e.0@, e.1@, e.2))
}

/// What a batch of replacements does: refused with the first problem and
/// no change, or applied to the table lists alone.
pub open spec fn replace_outcome(
    before: ManifestState,
    after: ManifestState,
    batch: Seq<ReplacementView>,
    r: Result<()>,
) -> bool {
    match batch_problem(entry_names(before.keyspace_entries()), before.table_entries(), batch) {
        Some(message) => {
            &&& after == before
            &&& r matches Err(e) && e.kind() == ErrorKind::Corruption && e.message_view() == message
        },
        None => {
            &&& r is Ok
            &&& after.keyspace_entries() == before.keyspace_entries()
            &&& after.table_entries() == replace_all(before.table_entries(), batch)
            &&& after.spec_wal_replay_floor() == before.spec_wal_replay_floor()
        },
    }
}

/// The first of `names` that is not among `known`, if any.
pub open spec fn first_unknown(known: Seq<Seq<char>>, names: Seq<Seq<char>>) -> Option<Seq<char>>
    decreases names.len(),
{
    if names.len() == 0 {
        None
    } else {
        match first_unknown(known, names.drop_last()) {
            Some(name) => Some(name),
            None => if name_position(known, names.last()) < 0 {
                Some(names.last())
            } else {
                None
            },
        }
    }
}

/// Once a prefix has an unknown name, every longer prefix reports the same.
proof fn lemma_first_unknown_prefix(known: Seq<Seq<char>>, names: Seq<Seq<char>>, n: int)
    requires
        0 <= n <= names.len(),
        first_unknown(known, names.take(n)) is Some,
    ensures
        first_unknown(known, names) == first_unknown(known, names.take(n)),
    decreases names.len() - n,
{
    if n < names.len() {
        assert(names.take(n + 1).drop_last() =~= names.take(n));
        lemma_first_unknown_prefix(known, names, n + 1);
    } else {
        assert(names.take(n) =~= names);
    }
}

/// Some table of the list has the id.
pub open spec fn list_has_id(list: Seq<TableProperties>, id: TableId) -> bool {
    exists|j: int| 0 <= j < list.len() && list[j].id == id
}

/// The first of `removed` that no table of the list has, if any.
pub open spec fn first_absent_id(list: Seq<TableProperties>, removed: Seq<TableId>) -> Option<TableId>
    decreases removed.len(),
{
    if removed.len() == 0 {
        None
    } else {
        match first_absent_id(list, removed.drop_last()) {
            Some(id) => Some(id),
            None => if list_has_id(list, removed.last()) {
                None
            } else {
                Some(removed.last())
            },
        }
    }
}

/// Why one replacement cannot be applied, as the error message, or `None`.
pub open spec fn replacement_problem(known: Seq<Seq<char>>, v: TablesView, name: Seq<char>, removed: Seq<TableId>) -> Option<Seq<char>> {
    let p = name_position(entry_names(v), name);
    if name_position(known, name) < 0 {
        Some("compaction references missing keyspace: "@ + name)
    } else if p < 0 {
        Some("manifest is missing table list for keyspace: "@ + name)
    } else {
        match first_absent_id(v[p].1, removed) {
            Some(id) => Some("compaction input table is missing: "@ + decimal(id.0 as nat)),
            None => None,
        }
    }
}

/// The problem of the first replacement that has one.
pub open spec fn batch_problem(known: Seq<Seq<char>>, v: TablesView, replacements: Seq<ReplacementView>) -> Option<Seq<char>>
    decreases replacements.len(),
{
    if replacements.len() == 0 {
        None
    } else {
        match batch_problem(known, v, replacements.drop_last()) {
            Some(message) => Some(message),
            None => replacement_problem(known, v, replacements.last().0, replacements.last().1),
        }
    }
}

proof fn lemma_batch_problem_prefix(known: Seq<Seq<char>>, v: TablesView, rs: Seq<ReplacementView>, n: int)
    requires
        0 <= n <= rs.len(),
        batch_problem(known, v, rs.take(n)) is Some,
    ensures
        batch_problem(known, v, rs) == batch_problem(known, v, rs.take(n)),
    decreases rs.len() - n,
{
    if n < rs.len() {
        assert(rs.take(n + 1).drop_last() =~= rs.take(n));
        lemma_batch_problem_prefix(known, v, rs, n + 1);
    } else {
        assert(rs.take(n) =~= rs);
    }
}

proof fn lemma_batch_ok(known: Seq<Seq<char>>, v: TablesView, rs: Seq<ReplacementView>, i: int)
    requires
        batch_problem(known, v, rs) is None,
        0 <= i < rs.len(),
    ensures
        replacement_problem(known, v, rs[i].0, rs[i].1) is None,
    decreases rs.len(),
{
    if i < rs.len() - 1 {
        lemma_batch_ok(known, v, rs.drop_last(), i);
    }
}

proof fn lemma_first_absent_prefix(list: Seq<TableProperties>, removed: Seq<TableId>, n: int)
    requires
        0 <= n <= removed.len(),
        first_absent_id(list, removed.take(n)) is Some,
    ensures
        first_absent_id(list, removed) == first_absent_id(list, removed.take(n)),
    decreases removed.len() - n,
{
    if n < removed.len() {
        assert(removed.take(n + 1).drop_last() =~= removed.take(n));
        lemma_first_absent_prefix(list, removed, n + 1);
    } else {
        assert(removed.take(n) =~= removed);
    }
}

// ---------------------------------------------------------------- edits

proof fn lemma_keyspace_names(entries: Seq<(String, BucketOptions)>)
    ensures
        entry_names(keyspaces_view(entries)) == names_of(entries),
{
    assert(entry_names(keyspaces_view(entries)) =~= names_of(entries));
}

proof fn lemma_table_names(entries: Seq<(String, Vec<TableProperties>)>)
    ensures
        entry_names(tables_view(entries)) == names_of(entries),
{
    assert(entry_names(tables_view(entries)) =~= names_of(entries));
}

/// Inserts a name that is not yet there at the place `find_name` reported.
fn insert_new<V>(entries: &mut Vec<(String, V)>, p: usize, name: String, value: V)
    requires
        names_sorted(names_of(old(entries)@)),
        p <= old(entries)@.len(),
        utf8_decoded(name_key(name@)) == Some(name@),
        forall|j: int| 0 <= j < p ==> bytes_lt(name_key(#[trigger] names_of(old(entries)@)[j]), name_key(name@)),
        forall|j: int|
            p <= j < old(entries)@.len() ==> bytes_lt(name_key(name@), name_key(#[trigger] names_of(old(entries)@)[j])),
    ensures
        final(entries)@ == old(entries)@.insert(p as int, (name, value)),
        names_sorted(names_of(final(entries)@)),
        names_of(final(entries)@) == names_of(old(entries)@).insert(p as int, name@),
        sorted_position(names_of(old(entries)@), name@) == p,
{
    proof {
        lemma_insert_sorted(old(entries)@, p as int, (name, value));
        lemma_sorted_position(names_of(old(entries)@), name@, p as int);
    }
    entries.insert(p, (name, value));
}

/// Sets the value of a name in a sorted list, adding the name at its place
/// where it is new.
pub(crate) fn put_named<V>(entries: &mut Vec<(String, V)>, name: String, value: V)
    requires
        names_sorted(names_of(old(entries)@)),
    ensures
        names_sorted(names_of(final(entries)@)),
        ({
            let names = names_of(old(entries)@);
            let p = name_position(names, name@);
            if p >= 0 {
                final(entries)@ == old(entries)@.update(p, (name, value))
            } else {
                final(entries)@ == old(entries)@.insert(sorted_position(names, name@), (name, value))
            }
        }),
{
    let ghost before = entries@;
    match find_name(entries, name.as_str()) {
        Ok(i) => {
            entries.set(i, (name, value));
            proof {
                assert(names_of(entries@) =~= names_of(before));
            }
        },
        Err(p) => {
            insert_new(entries, p, name, value);
        },
    }
}

/// Appends a table to the list of its keyspace, starting the list where
/// the keyspace has none.
fn add_table_entry(tables: &mut Vec<(String, Vec<TableProperties>)>, name: String, table: TableProperties)
    requires
        names_sorted(names_of(old(tables)@)),
    ensures
        names_sorted(names_of(final(tables)@)),
        tables_view(final(tables)@) == add_table(tables_view(old(tables)@), name@, table),
{
    proof {
        lemma_table_names(tables@);
    }
    let ghost before = tables@;
    match find_name(tables, name.as_str()) {
        Ok(i) => {
            let mut entry = tables.remove(i);
            entry.1.push(table);
            tables.insert(i, entry);
            proof {
                assert(tables@ =~= before.update(i as int, entry));
                assert(names_of(tables@) =~= names_of(before));
                assert(tables_view(tables@) =~= tables_view(before).update(
                    i as int,
                    (name@, tables_view(before)[i as int].1.push(table)),
                ));
            }
        },
        Err(p) => {
            let list = vec![table];
            insert_new(tables, p, name, list);
            proof {
                assert(list@ =~= seq![table]);
                assert(tables_view(tables@) =~= tables_view(before).insert(p as int, (name@, seq![table])));
            }
        },
    }
}

fn contains_id(ids: &Vec<TableId>, id: TableId) -> (r: bool)
    ensures
        r == ids_contain(ids@, id),
{
    let mut i: usize = 0;
    while i < ids.len()
        invariant
            i <= ids@.len(),
            forall|j: int| 0 <= j < i ==> ids@[j] != id,
        decreases ids@.len() - i,
    {
        if ids[i].0 == id.0 {
            return true;
        }
        i = i + 1;
    }
    false
}

fn has_table_id(list: &Vec<TableProperties>, id: TableId) -> (r: bool)
    ensures
        r == list_has_id(list@, id),
{
    let mut i: usize = 0;
    while i < list.len()
        invariant
            i <= list@.len(),
            forall|j: int| 0 <= j < i ==> list@[j].id != id,
        decreases list@.len() - i,
    {
        if list[i].id.0 == id.0 {
            return true;
        }
        i = i + 1;
    }
    false
}

/// The first of the removed ids that no table of the list has.
fn first_missing_table(list: &Vec<TableProperties>, removed: &Vec<TableId>) -> (r: Option<TableId>)
    ensures
        r == first_absent_id(list@, removed@),
{
    let mut j: usize = 0;
    while j < removed.len()
        invariant
            j <= removed@.len(),
            first_absent_id(list@, removed@.take(j as int)) is None,
        decreases removed@.len() - j,
    {
        proof {
            assert(removed@.take(j + 1).drop_last() =~= removed@.take(j as int));
        }
        if !has_table_id(list, removed[j]) {
            proof {
                lemma_first_absent_prefix(list@, removed@, j + 1);
            }
            return Some(removed[j]);
        }
        j = j + 1;
    }
    proof {
        assert(removed@.take(removed@.len() as int) =~= removed@);
    }
    None
}

/// The tables of the list whose ids are not removed, in order.
fn retain_tables(list: Vec<TableProperties>, removed: &Vec<TableId>) -> (r: Vec<TableProperties>)
    ensures
        r@ == list@.filter(|t: TableProperties| !ids_contain(removed@, t.id)),
{
    let total = list.len();
    let ghost all = list@;
    let ghost keep = |t: TableProperties| !ids_contain(removed@, t.id);
    let mut rest = list;
    let mut kept: Vec<TableProperties> = Vec::new();
    let mut k: usize = 0;
    proof {
        assert(all.take(0).filter(keep) =~= Seq::<TableProperties>::empty()) by {
            reveal(Seq::filter);
        }
        assert(rest@ =~= all.skip(0));
    }
    while rest.len() > 0
        invariant
            keep == (|t: TableProperties| !ids_contain(removed@, t.id)),
            all.len() == total,
            k + rest@.len() == all.len(),
            rest@ == all.skip(k as int),
            kept@ == all.take(k as int).filter(keep),
        decreases rest@.len(),
    {
        let ghost old_rest = rest@;
        let table = rest.remove(0);
        proof {
            assert(rest@ =~= all.skip(k + 1));
            assert(table == all[k as int]);
        }
        let keep_it = !contains_id(removed, table.id);
        proof {
            assert(keep(all[k as int]) == keep_it);
        }
        if keep_it {
            kept.push(table);
        }
        proof {
            reveal(Seq::filter);
            assert(all.take(k + 1).drop_last() =~= all.take(k as int));
            assert(all.take(k + 1).last() == all[k as int]);
        }
        k = k + 1;
    }
    proof {
        assert(all.take(k as int) =~= all);
    }
    kept
}

/// The manifest of an open database: the file it is published to and the
/// state it holds. Each edit changes the state in memory; publishing the
/// new state is the caller's part.
#[derive(Debug)]
pub struct ManifestStore {
    path: std::path::PathBuf,
    state: ManifestState,
}

impl ManifestStore {
    /// Opens the manifest at `path`, given the bytes of the file where it
    /// exists. A missing file gives an empty manifest; the flag in the
    /// result is set when that empty manifest is to be published because
    /// `create_if_missing` asked for it.
    pub fn open_or_create(path: std::path::PathBuf, existing: Option<&[u8]>, create_if_missing: bool) -> (r: Result<(Self, bool)>)
        ensures
            match existing {
                Some(bytes) => match crate::manifest_format::manifest_spec(bytes@) {
                    Ok(m) => r matches Ok((store, publish)) && !publish && store.spec_path() == path
                        && crate::manifest_format::manifest_record(store.spec_state()) == m
                        && crate::manifest_format::without_blob_references(store.spec_state()),
                    Err(f) => r matches Err(e) && crate::blob_format::fault_is(e, f),
                },
                None => r matches Ok((store, publish)) && publish == create_if_missing && store.spec_path() == path
                    && store.spec_state().spec_wal_replay_floor() == 0 && store.spec_state().spec_keyspaces().len() == 0
                    && store.spec_state().spec_tables().len() == 0,
            },
    {
        match existing {
            Some(bytes) => match crate::manifest_format::decode_manifest(bytes) {
                Ok(state) => Ok((ManifestStore { path, state }, false)),
                Err(e) => Err(e),
            },
            None => Ok((ManifestStore { path, state: ManifestState::empty() }, create_if_missing)),
        }
    }

    pub closed spec fn spec_state(&self) -> ManifestState {
        self.state
    }

    pub closed spec fn spec_path(&self) -> std::path::PathBuf {
        self.path
    }

    /// A store for the manifest at `path` holding `state`.
    pub fn new(path: std::path::PathBuf, state: ManifestState) -> (r: Self)
        ensures
            r.spec_state() == state,
            r.spec_path() == path,
    {
        ManifestStore { path, state }
    }

    pub fn state(&self) -> (r: &ManifestState)
        ensures
            *r == self.spec_state(),
    {
        &self.state
    }

    /// Where the manifest is published.
    pub fn path(&self) -> (r: &std::path::PathBuf)
        ensures
            *r == self.spec_path(),
    {
        &self.path
    }

    /// Registers a keyspace. One that exists with the same options is left
    /// as it is (`Ok(false)`); one that exists with other options is
    /// refused. A new keyspace is added with its options, and gets an empty
    /// table list where it has none (`Ok(true)`: the state changed).
    pub fn create_keyspace(&mut self, name: String, options: BucketOptions) -> (r: Result<bool>)
        ensures
            final(self).spec_path() == old(self).spec_path(),
            ({
                let before = old(self).spec_state();
                let after = final(self).spec_state();
                let p = name_position(entry_names(before.keyspace_entries()), name@);
                if p >= 0 {
                    &&& after == before
                    &&& (r is Ok <==> same_options(before.keyspace_entries()[p].1, options))
                    &&& (r matches Ok(changed) ==> !changed)
                    &&& (r matches Err(e) ==> e.kind() == ErrorKind::InvalidOptions && e.message_view()
                        == "existing keyspace options do not match requested options"@)
                } else {
                    &&& r matches Ok(changed) && changed
                    &&& after.keyspace_entries() == put_entry(before.keyspace_entries(), name@, options)
                    &&& after.table_entries() == (if name_position(entry_names(before.table_entries()), name@) >= 0 {
                        before.table_entries()
                    } else {
                        put_entry(before.table_entries(), name@, Seq::<TableProperties>::empty())
                    })
                    &&& after.spec_wal_replay_floor() == before.spec_wal_replay_floor()
                }
            }),
    {
        proof {
            use_type_invariant(&self.state);
            lemma_keyspace_names(self.state.keyspaces@);
            lemma_table_names(self.state.tables@);
        }
        match find_name(&self.state.keyspaces, name.as_str()) {
            Ok(i) => {
                if options_equal(&self.state.keyspaces[i].1, &options) {
                    Ok(false)
                } else {
                    Err(Error::invalid_options("existing keyspace options do not match requested options"))
                }
            },
            Err(p) => {
                let mut state = ManifestState::empty();
                std::mem::swap(&mut state, &mut self.state);
                proof {
                    use_type_invariant(&state);
                }
                let ManifestState { wal_replay_floor, mut keyspaces, mut tables } = state;
                let ghost old_tables = tables@;
                match find_name(&tables, name.as_str()) {
                    Ok(_) => {},
                    Err(q) => {
                        let table_name = name.clone();
                        insert_new(&mut tables, q, table_name, Vec::new());
                        proof {
                            assert(tables_view(tables@) =~= tables_view(old_tables).insert(
                                q as int,
                                (name@, Seq::<TableProperties>::empty()),
                            ));
                        }
                    },
                }
                let ghost old_keyspaces = keyspaces@;
                insert_new(&mut keyspaces, p, name, options);
                proof {
                    assert(keyspaces_view(keyspaces@) =~= keyspaces_view(old_keyspaces).insert(p as int, (name@, options)));
                }
                self.state = ManifestState { wal_replay_floor, keyspaces, tables };
                Ok(true)
            },
        }
    }

    /// Records tables written by a flush or an import, and moves the
    /// write-ahead-log replay floor. Refused, with nothing changed, where a
    /// table names a keyspace the manifest lacks.
    pub fn add_tables(&mut self, tables: Vec<(String, TableProperties)>, wal_replay_floor: Sequence) -> (r: Result<()>)
        ensures
            final(self).spec_path() == old(self).spec_path(),
            ({
                let before = old(self).spec_state();
                let after = final(self).spec_state();
                let missing = first_unknown(
                    entry_names(before.keyspace_entries()),
                    entry_names(additions_view(tables@)),
                );
                match missing {
                    Some(name) => {
                        &&& after == before
                        &&& r matches Err(e) && e.kind() == ErrorKind::Corruption && e.message_view()
                            == "table references missing keyspace: "@ + name
                    },
                    None => {
                        &&& r is Ok
                        &&& after.keyspace_entries() == before.keyspace_entries()
                        &&& after.table_entries() == add_tables_spec(before.table_entries(), additions_view(tables@))
                        &&& after.spec_wal_replay_floor() == wal_replay_floor.spec_get()
                    },
                }
            }),
    {
        proof {
            use_type_invariant(&self.state);
            lemma_keyspace_names(self.state.keyspaces@);
        }
        let ghost known = entry_names(self.state.keyspace_entries());
        let ghost names = entry_names(additions_view(tables@));
        let mut i: usize = 0;
        while i < tables.len()
            invariant
                *self == *old(self),
                i <= tables@.len(),
                known == names_of(self.state.keyspaces@),
                names_sorted(known),
                names == entry_names(additions_view(tables@)),
                first_unknown(known, names.take(i as int)) is None,
            decreases tables@.len() - i,
        {
            proof {
                assert(names.take(i + 1).drop_last() =~= names.take(i as int));
            }
            match find_name(&self.state.keyspaces, tables[i].0.as_str()) {
                Ok(_) => {},
                Err(_) => {
                    let mut message = String::from_str("table references missing keyspace: ");
                    message.append(tables[i].0.as_str());
                    proof {
                        assert(names[i as int] == tables@[i as int].0@);
                        assert(first_unknown(known, names.take(i + 1)) == Some(names[i as int]));
                        lemma_first_unknown_prefix(known, names, i + 1);
                        assert(known == entry_names(old(self).spec_state().keyspace_entries()));
                        assert(first_unknown(known, names) == Some(tables@[i as int].0@));
                        assert(message@ == "table references missing keyspace: "@ + tables@[i as int].0@);
                    }
                    return Err(Error::Corruption { message });
                },
            }
            i = i + 1;
        }
        proof {
            assert(names.take(names.len() as int) =~= names);
        }
        let mut state = ManifestState::empty();
        std::mem::swap(&mut state, &mut self.state);
        proof {
            use_type_invariant(&state);
        }
        let ManifestState { wal_replay_floor: _, keyspaces, tables: mut lists } = state;
        let ghost start = tables_view(lists@);
        let ghost additions = additions_view(tables@);
        let mut rest = tables;
        let mut k: usize = 0;
        proof {
            assert(additions_view(rest@) =~= additions.skip(0));
        }
        while rest.len() > 0
            invariant
                additions.len() <= usize::MAX,
                names_sorted(names_of(lists@)),
                k + rest@.len() == additions.len(),
                additions_view(rest@) == additions.skip(k as int),
                tables_view(lists@) == add_tables_spec(start, additions.take(k as int)),
            decreases rest@.len(),
        {
            let ghost old_rest = rest@;
            let (name, table) = rest.remove(0);
            proof {
                assert(rest@ =~= old_rest.skip(1));
                assert(additions_view(old_rest)[0] == (name@, table));
                assert(additions.skip(k as int)[0] == (name@, table));
                assert(additions.take(k + 1).drop_last() =~= additions.take(k as int));
                assert(additions.take(k + 1).last() == (name@, table));
                assert(additions_view(rest@) =~= additions_view(old_rest).skip(1));
                assert(additions_view(rest@) =~= additions.skip(k + 1));
            }
            add_table_entry(&mut lists, name, table);
            k = k + 1;
        }
        proof {
            assert(additions.take(k as int) =~= additions);
        }
        self.state = ManifestState { wal_replay_floor, keyspaces, tables: lists };
        Ok(())
    }

    /// Swaps compacted tables for their replacement in one keyspace.
    pub fn replace_tables(&mut self, keyspace: &str, removed_table_ids: &[TableId], replacement: TableProperties) -> (r: Result<()>)
        ensures
            final(self).spec_path() == old(self).spec_path(),
            ({
                let before = old(self).spec_state();
                let after = final(self).spec_state();
                let batch = seq![(keyspace@, removed_table_ids@, Some(replacement))];
                replace_outcome(before, after, batch, r)
            }),
    {
        let mut removed: Vec<TableId> = Vec::new();
        let mut i: usize = 0;
        while i < removed_table_ids.len()
            invariant
                i <= removed_table_ids@.len(),
                removed@ == removed_table_ids@.take(i as int),
            decreases removed_table_ids@.len() - i,
        {
            removed.push(removed_table_ids[i]);
            proof {
                assert(removed@ =~= removed_table_ids@.take(i + 1));
            }
            i = i + 1;
        }
        proof {
            assert(removed@ =~= removed_table_ids@);
        }
        let name = String::from_str(keyspace);
        let batch = vec![(name, removed, Some(replacement))];
        let r = self.replace_tables_batch(batch);
        proof {
            assert(replacements_view(batch@) =~= seq![(keyspace@, removed_table_ids@, Some(replacement))]);
        }
        r
    }

    /// Applies the edits of a compaction: in each keyspace named, the
    /// removed tables leave its list and the replacement, if any, is
    /// appended. The whole batch is checked against the state before any
    /// change, so a refused batch changes nothing.
    pub fn replace_tables_batch(&mut self, replacements: Vec<Replacement>) -> (r: Result<()>)
        ensures
            final(self).spec_path() == old(self).spec_path(),
            replace_outcome(old(self).spec_state(), final(self).spec_state(), replacements_view(replacements@), r),
    {
        proof {
            use_type_invariant(&self.state);
            lemma_keyspace_names(self.state.keyspaces@);
            lemma_table_names(self.state.tables@);
        }
        let ghost known = entry_names(self.state.keyspace_entries());
        let ghost v = self.state.table_entries();
        let ghost rs = replacements_view(replacements@);
        let mut i: usize = 0;
        while i < replacements.len()
            invariant
                *self == *old(self),
                i <= rs.len(),
                rs == replacements_view(replacements@),
                known == names_of(self.state.keyspaces@),
                known == entry_names(old(self).spec_state().keyspace_entries()),
                v == tables_view(self.state.tables@),
                entry_names(v) == names_of(self.state.tables@),
                names_sorted(known),
                names_sorted(names_of(self.state.tables@)),
                batch_problem(known, v, rs.take(i as int)) is None,
            decreases rs.len() - i,
        {
            proof {
                assert(rs.take(i + 1).drop_last() =~= rs.take(i as int));
                assert(rs.take(i + 1).last() == rs[i as int]);
                assert(rs[i as int] == (replacements@[i as int].0@, replacements@[i as int].1@, replacements@[i as int].2));
            }
            let name = replacements[i].0.as_str();
            let removed = &replacements[i].1;
            if let Err(_) = find_name(&self.state.keyspaces, name) {
                let mut message = String::from_str("compaction references missing keyspace: ");
                message.append(name);
                proof {
                    lemma_batch_problem_prefix(known, v, rs, i + 1);
                }
                return Err(Error::Corruption { message });
            }
            match find_name(&self.state.tables, name) {
                Err(_) => {
                    let mut message = String::from_str("manifest is missing table list for keyspace: ");
                    message.append(name);
                    proof {
                        lemma_batch_problem_prefix(known, v, rs, i + 1);
                    }
                    return Err(Error::Corruption { message });
                },
                Ok(t) => {
                    let list = &self.state.tables[t].1;
                    proof {
                        assert(v[t as int].1 == list@);
                    }
                    if let Some(id) = first_missing_table(list, removed) {
                        let mut message = String::from_str("compaction input table is missing: ");
                        push_decimal(&mut message, id.0);
                        proof {
                            lemma_batch_problem_prefix(known, v, rs, i + 1);
                        }
                        return Err(Error::Corruption { message });
                    }
                },
            }
            i = i + 1;
        }
        proof {
            assert(rs.take(rs.len() as int) =~= rs);
        }
        let mut state = ManifestState::empty();
        std::mem::swap(&mut state, &mut self.state);
        proof {
            use_type_invariant(&state);
        }
        let ManifestState { wal_replay_floor, keyspaces, tables: mut lists } = state;
        let mut rest = replacements;
        let mut k: usize = 0;
        proof {
            assert(replacements_view(rest@) =~= rs.skip(0));
            assert(rs.take(0) =~= Seq::<ReplacementView>::empty());
        }
        while rest.len() > 0
            invariant
                rs.len() <= usize::MAX,
                batch_problem(known, v, rs) is None,
                k + rest@.len() == rs.len(),
                replacements_view(rest@) == rs.skip(k as int),
                names_sorted(names_of(lists@)),
                entry_names(v) == names_of(lists@),
                tables_view(lists@) == replace_all(v, rs.take(k as int)),
            decreases rest@.len(),
        {
            let ghost old_rest = rest@;
            let (name, removed, replacement) = rest.remove(0);
            proof {
                assert(rest@ =~= old_rest.skip(1));
                assert(replacements_view(rest@) =~= replacements_view(old_rest).skip(1));
                assert(replacements_view(rest@) =~= rs.skip(k + 1));
                assert(replacements_view(old_rest)[0] == (name@, removed@, replacement));
                assert(rs[k as int] == (name@, removed@, replacement));
                assert(rs.take(k + 1).drop_last() =~= rs.take(k as int));
                lemma_batch_ok(known, v, rs, k as int);
                lemma_table_names(lists@);
            }
            let ghost before = lists@;
            match find_name(&lists, name.as_str()) {
                Ok(t) => {
                    let (list_name, list) = lists.remove(t);
                    let mut kept = retain_tables(list, &removed);
                    match replacement {
                        Some(table) => kept.push(table),
                        None => {},
                    }
                    lists.insert(t, (list_name, kept));
                    proof {
                        assert(lists@ =~= before.update(t as int, (list_name, kept)));
                        assert(names_of(lists@) =~= names_of(before));
                        assert(tables_view(lists@) =~= replace_in(tables_view(before), name@, removed@, replacement));
                    }
                },
                Err(_) => {
                    proof {
                        assert(false);
                    }
                },
            }
            k = k + 1;
        }
        proof {
            assert(rs.take(k as int) =~= rs);
        }
        self.state = ManifestState { wal_replay_floor, keyspaces, tables: lists };
        Ok(())
    }

    /// Moves the write-ahead-log replay floor.
    pub fn update_wal_replay_floor(&mut self, sequence: Sequence)
        ensures
            final(self).spec_path() == old(self).spec_path(),
            final(self).spec_state().keyspace_entries() == old(self).spec_state().keyspace_entries(),
            final(self).spec_state().table_entries() == old(self).spec_state().table_entries(),
            final(self).spec_state().spec_wal_replay_floor() == sequence.spec_get(),
    {
        let mut state = ManifestState::empty();
        std::mem::swap(&mut state, &mut self.state);
        proof {
            use_type_invariant(&state);
        }
        let ManifestState { wal_replay_floor: _, keyspaces, tables } = state;
        self.state = ManifestState { wal_replay_floor: sequence, keyspaces, tables };
    }

    /// The id for the next table: one more than the largest recorded.
    pub fn next_table_id(&self) -> (r: Result<TableId>)
        ensures
            match r {
                Ok(id) => max_table_id(self.spec_state().spec_tables()) < u64::MAX && id.0 == max_table_id(
                    self.spec_state().spec_tables(),
                ) + 1,
                Err(e) => max_table_id(self.spec_state().spec_tables()) == u64::MAX && e.kind() == ErrorKind::Corruption,
            },
    {
        self.state.next_table_id()
    }
}

impl Default for ManifestState {
    /// The empty manifest.
    fn default() -> (r: Self)
        ensures
            r.well_formed(),
            r.spec_wal_replay_floor() == 0,
            r.spec_keyspaces().len() == 0,
            r.spec_tables().len() == 0,
    {
        Self::empty()
    }
}

} // verus!
