//! What the names in a database directory say: which files are temporary
//! leftovers of an atomic write, which are table or blob files and of which
//! id, and which storage files the manifest does not refer to.

use vstd::prelude::*;
use crate::blob::{blob_file_name, blob_file_name_spec, BLOB_FILE_EXTENSION};
use crate::bytes::{bytes_le, bytes_lt, compare_bytes, lemma_bytes_order_properties, lemma_bytes_order_trans, Order};
use crate::error::{Error, ErrorKind, Result};
use crate::manifest::{name_key, text_bytes};
use vstd::multiset::Multiset;
use crate::table::{table_file_name, table_file_name_spec, TableId, TABLE_FILE_EXTENSION};

verus! {

// ---------------------------------------------------------------- names

/// Index of the last `.` among the first `n` characters.
pub open spec fn last_dot(name: Seq<char>, n: int) -> Option<int>
    decreases n,
{
    if n <= 0 {
        None
    } else if name[n - 1] == '.' {
        Some(n - 1)
    } else {
        last_dot(name, n - 1)
    }
}

/// The extension of a file name: what follows its last dot; none where it
/// has no dot, or its only dot starts it. For a name as a directory listing
/// gives it (no `/`, not `.` or `..`) this is what `Path::extension` gives.
pub open spec fn name_extension(name: Seq<char>) -> Option<Seq<char>> {
    match last_dot(name, name.len() as int) {
        Some(i) => if i == 0 {
            None
        } else {
            Some(name.skip(i + 1))
        },
        None => None,
    }
}

/// The stem of a file name: what precedes its last dot; the whole name where
/// it has no dot, or its only dot starts it. For a name as a directory
/// listing gives it this is what `Path::file_stem` gives.
pub open spec fn name_stem(name: Seq<char>) -> Seq<char> {
    match last_dot(name, name.len() as int) {
        Some(i) => if i == 0 {
            name
        } else {
            name.take(i)
        },
        None => name,
    }
}

/// A character with ASCII upper case folded to lower case.
pub open spec fn ascii_fold(c: char) -> char {
    if 'A' <= c && c <= 'Z' {
        ((c as u32) + 32) as char
    } else {
        c
    }
}

/// Equal but for the case of ASCII letters.
pub open spec fn eq_ignore_ascii_case(a: Seq<char>, b: Seq<char>) -> bool {
    a.len() == b.len() && forall|i: int| 0 <= i < a.len() ==> ascii_fold(#[trigger] a[i]) == ascii_fold(b[i])
}

fn fold_char(c: char) -> (r: char)
    ensures
        r == ascii_fold(c),
{
    if 'A' <= c && c <= 'Z' {
        let code = (c as u32) + 32;
        proof {
            assert(code == (c as u32) + 32);
        }
        code as u8 as char
    } else {
        c
    }
}

fn find_last_dot(name: &str) -> (r: Option<usize>)
    ensures
        match (r, last_dot(name@, name@.len() as int)) {
            (Some(i), Some(j)) => i as int == j,
            (None, None) => true,
            _ => false,
        },
        r matches Some(i) ==> i < name@.len(),
{
    let mut n = name.unicode_len();
    while n > 0
        invariant
            n <= name@.len(),
            last_dot(name@, name@.len() as int) == last_dot(name@, n as int),
        decreases n,
    {
        if name.get_char(n - 1) == '.' {
            return Some(n - 1);
        }
        n = n - 1;
    }
    None
}

/// The extension of a file name.
pub fn file_extension(name: &str) -> (r: Option<&str>)
    ensures
        match (r, name_extension(name@)) {
            (Some(e), Some(expected)) => e@ == expected,
            (None, None) => true,
            _ => false,
        },
{
    match find_last_dot(name) {
        Some(i) => if i == 0 {
            None
        } else {
            let n = name.unicode_len();
            Some(name.substring_char(i + 1, n))
        },
        None => None,
    }
}

/// The stem of a file name.
pub fn file_stem(name: &str) -> (r: &str)
    ensures
        r@ == name_stem(name@),
{
    match find_last_dot(name) {
        Some(i) => if i == 0 {
            proof {
                assert(name@.subrange(0, name@.len() as int) =~= name@);
            }
            name.substring_char(0, name.unicode_len())
        } else {
            name.substring_char(0, i)
        },
        None => {
            proof {
                assert(name@.subrange(0, name@.len() as int) =~= name@);
            }
            name.substring_char(0, name.unicode_len())
        },
    }
}

/// Whether two strings are equal but for the case of ASCII letters.
pub fn equal_ignoring_ascii_case(a: &str, b: &str) -> (r: bool)
    ensures
        r == eq_ignore_ascii_case(a@, b@),
{
    let n = a.unicode_len();
    if n != b.unicode_len() {
        return false;
    }
    let mut i: usize = 0;
    while i < n
        invariant
            n == a@.len(),
            n == b@.len(),
            i <= n,
            forall|k: int| 0 <= k < i ==> ascii_fold(#[trigger] a@[k]) == ascii_fold(b@[k]),
        decreases n - i,
    {
        if fold_char(a.get_char(i)) != fold_char(b.get_char(i)) {
            return false;
        }
        i = i + 1;
    }
    true
}

/// Whether `prefix` starts `text`.
pub fn starts_with(text: &str, prefix: &str) -> (r: bool)
    ensures
        r == prefix@.is_prefix_of(text@),
{
    let n = prefix.unicode_len();
    if n > text.unicode_len() {
        return false;
    }
    let mut i: usize = 0;
    while i < n
        invariant
            n == prefix@.len(),
            n <= text@.len(),
            i <= n,
            forall|k: int| 0 <= k < i ==> prefix@[k] == text@[k],
        decreases n - i,
    {
        if prefix.get_char(i) != text.get_char(i) {
            return false;
        }
        i = i + 1;
    }
    true
}

pub(crate) fn same_text(a: &str, b: &str) -> (r: bool)
    ensures
        r == (a@ == b@),
{
    let r = starts_with(a, b) && a.unicode_len() == b.unicode_len();
    proof {
        if r {
            assert(a@ =~= b@);
        }
    }
    r
}

// ---------------------------------------------------------------- temporary files

/// The name has the extension `tmp`, in any ASCII case.
pub open spec fn spec_has_tmp_extension(name: Seq<char>) -> bool {
    match name_extension(name) {
        Some(e) => eq_ignore_ascii_case(e, "tmp"@),
        None => false,
    }
}

/// A file that an atomic write leaves before its final rename: the manifest's
/// or the recovery report's temporary file, or a table or blob file with the
/// extension `tmp`.
pub open spec fn spec_is_safe_temporary_file(name: Seq<char>) -> bool {
    ||| name == "MANIFEST.tmp"@
    ||| name == "RECOVERY_REPORT.tmp"@
    ||| ("table-"@.is_prefix_of(name) && spec_has_tmp_extension(name))
    ||| ("blob-"@.is_prefix_of(name) && spec_has_tmp_extension(name))
}

pub fn has_tmp_extension(name: &str) -> (r: bool)
    ensures
        r == spec_has_tmp_extension(name@),
{
    match file_extension(name) {
        Some(extension) => equal_ignoring_ascii_case(extension, "tmp"),
        None => false,
    }
}

/// Whether a file is a temporary leftover of an atomic write, which recovery
/// may remove when the repair policy allows it.
pub fn is_safe_temporary_file(name: &str) -> (r: bool)
    ensures
        r == spec_is_safe_temporary_file(name@),
{
    same_text(name, "MANIFEST.tmp") || same_text(name, "RECOVERY_REPORT.tmp") || (starts_with(name, "table-")
        && has_tmp_extension(name)) || (starts_with(name, "blob-") && has_tmp_extension(name))
}

// ---------------------------------------------------------------- storage file ids

/// Value of a run of decimal digits.
pub open spec fn digits_value(s: Seq<char>) -> nat
    decreases s.len(),
{
    if s.len() == 0 {
        0
    } else {
        digits_value(s.drop_last()) * 10 + ((s.last() as u32) - ('0' as u32)) as nat
    }
}

pub open spec fn all_digits(s: Seq<char>) -> bool {
    forall|i: int| 0 <= i < s.len() ==> '0' <= #[trigger] s[i] && s[i] <= '9'
}

/// What `u64::from_str` gives: an optional `+`, then at least one decimal
/// digit and nothing else, of a value that fits.
pub open spec fn parse_u64(s: Seq<char>) -> Option<u64> {
    let digits = if s.len() > 0 && s[0] == '+' {
        s.skip(1)
    } else {
        s
    };
    if digits.len() > 0 && all_digits(digits) && digits_value(digits) <= u64::MAX {
        Some(digits_value(digits) as u64)
    } else {
        None
    }
}

/// Parses a decimal `u64` as `u64::from_str` does.
pub fn parse_decimal_u64(text: &str) -> (r: Option<u64>)
    ensures
        r == parse_u64(text@),
{
    let n = text.unicode_len();
    let start: usize = if n > 0 && text.get_char(0) == '+' { 1 } else { 0 };
    let ghost digits = if text@.len() > 0 && text@[0] == '+' {
        text@.skip(1)
    } else {
        text@
    };
    proof {
        if start == 0 {
            assert(digits =~= text@.skip(0));
        }
    }
    if start == n {
        return None;
    }
    let mut value: u64 = 0;
    let mut i: usize = start;
    while i < n
        invariant
            n == text@.len(),
            start <= i <= n,
            digits == text@.skip(start as int),
            digits == (if text@.len() > 0 && text@[0] == '+' {
                text@.skip(1)
            } else {
                text@
            }),
            all_digits(digits.take(i - start)),
            value == digits_value(digits.take(i - start)),
        decreases n - i,
    {
        let c = text.get_char(i);
        proof {
            assert(digits.take(i - start + 1).drop_last() =~= digits.take(i - start));
            assert(digits[i - start] == c);
        }
        if c < '0' || c > '9' {
            proof {
                assert(!all_digits(digits));
            }
            return None;
        }
        let digit = (c as u32) - ('0' as u32);
        if value > (u64::MAX - digit as u64) / 10 {
            proof {
                lemma_digits_value_prefix(digits, i - start + 1);
                assert(digits_value(digits.take(i - start + 1)) == value * 10 + digit);
                assert(value * 10 + digit > u64::MAX) by (nonlinear_arith)
                    requires
                        value > (u64::MAX - digit as u64) / 10,
                        digit <= 9,
                ;
            }
            return None;
        }
        proof {
            assert(value * 10 + digit <= u64::MAX) by (nonlinear_arith)
                requires
                    value <= (u64::MAX - digit as u64) / 10,
                    digit <= 9,
            ;
        }
        value = value * 10 + digit as u64;
        i = i + 1;
    }
    proof {
        assert(digits.take(i - start) =~= digits);
    }
    Some(value)
}

proof fn lemma_digits_value_prefix(s: Seq<char>, n: int)
    requires
        0 <= n <= s.len(),
    ensures
        digits_value(s.take(n)) <= digits_value(s),
    decreases s.len() - n,
{
    if n < s.len() {
        lemma_digits_value_prefix(s, n + 1);
        assert(s.take(n + 1).drop_last() =~= s.take(n));
    } else {
        assert(s.take(n) =~= s);
    }
}

/// What a directory entry's name says of a storage file of one kind.
#[derive(Debug, Clone, Copy, PartialEq, Eq, Structural)]
pub enum StorageName {
    /// Not a file of this kind.
    Unrelated,
    /// The file of this id.
    Id(u64),
    /// A file of this kind whose name holds no valid id.
    Malformed,
}

/// A file of a kind has the kind's extension, in any ASCII case, and a stem
/// that starts with the kind's prefix; the rest of the stem is its id.
pub open spec fn spec_storage_name(name: Seq<char>, prefix: Seq<char>, extension: Seq<char>) -> StorageName {
    let has_extension = match name_extension(name) {
        Some(e) => eq_ignore_ascii_case(e, extension),
        None => false,
    };
    let stem = name_stem(name);
    if !has_extension || !prefix.is_prefix_of(stem) {
        StorageName::Unrelated
    } else {
        match parse_u64(stem.skip(prefix.len() as int)) {
            Some(id) => StorageName::Id(id),
            None => StorageName::Malformed,
        }
    }
}

fn storage_name(name: &str, prefix: &str, extension: &str) -> (r: StorageName)
    ensures
        r == spec_storage_name(name@, prefix@, extension@),
{
    let has_extension = match file_extension(name) {
        Some(e) => equal_ignoring_ascii_case(e, extension),
        None => false,
    };
    let stem = file_stem(name);
    if !has_extension || !starts_with(stem, prefix) {
        return StorageName::Unrelated;
    }
    let rest = stem.substring_char(prefix.unicode_len(), stem.unicode_len());
    proof {
        assert(rest@ =~= stem@.skip(prefix@.len() as int));
    }
    match parse_decimal_u64(rest) {
        Some(id) => StorageName::Id(id),
        None => StorageName::Malformed,
    }
}

/// What a directory entry's name says of a blob file.
pub fn blob_file_id(name: &str) -> (r: StorageName)
    ensures
        r == spec_storage_name(name@, "blob-"@, BLOB_FILE_EXTENSION@),
{
    storage_name(name, "blob-", BLOB_FILE_EXTENSION)
}

/// What a directory entry's name says of a table file.
pub fn table_file_id(name: &str) -> (r: StorageName)
    ensures
        r == spec_storage_name(name@, "table-"@, TABLE_FILE_EXTENSION@),
{
    storage_name(name, "table-", TABLE_FILE_EXTENSION)
}

// ---------------------------------------------------------------- unreferenced files

pub open spec fn unreferenced_ids(ids: Seq<u64>, referenced: Seq<u64>) -> Seq<u64> {
    ids.filter(|id: u64| !referenced.contains(id))
}

/// Names of the storage files that the manifest does not refer to: the blob
/// files, then the table files, each in the order of the ids given. With the
/// ids of each kind in ascending order, as a directory listing gathered into
/// a set gives them, this is the names in sorted order.
pub open spec fn spec_unreferenced_files(table_ids: Seq<u64>, referenced_table_ids: Seq<u64>, blob_ids: Seq<u64>, referenced_blob_ids: Seq<u64>) -> Seq<Seq<char>> {
    unreferenced_ids(blob_ids, referenced_blob_ids).map_values(|id: u64| blob_file_name_spec(id)) + unreferenced_ids(
        table_ids,
        referenced_table_ids,
    ).map_values(|id: u64| table_file_name_spec(TableId(id)))
}

fn contains_u64(ids: &[u64], id: u64) -> (r: bool)
    ensures
        r == ids@.contains(id),
{
    let mut i: usize = 0;
    while i < ids.len()
        invariant
            i <= ids@.len(),
            forall|k: int| 0 <= k < i ==> ids@[k] != id,
        decreases ids@.len() - i,
    {
        if ids[i] == id {
            return true;
        }
        i = i + 1;
    }
    false
}

pub open spec fn string_views(v: Seq<String>) -> Seq<Seq<char>> {
    v.map_values(|s: String| s@)
}

/// Names of the storage files that the manifest does not refer to.
pub fn unreferenced_storage_files(table_ids: &[u64], referenced_table_ids: &[u64], blob_ids: &[u64], referenced_blob_ids: &[u64]) -> (r: Vec<String>)
    ensures
        string_views(r@) == spec_unreferenced_files(table_ids@, referenced_table_ids@, blob_ids@, referenced_blob_ids@),
{
    let mut files: Vec<String> = Vec::new();
    let ghost blob_part = unreferenced_ids(blob_ids@, referenced_blob_ids@).map_values(|id: u64| blob_file_name_spec(id));
    let mut i: usize = 0;
    while i < blob_ids.len()
        invariant
            i <= blob_ids@.len(),
            string_views(files@) == unreferenced_ids(blob_ids@.take(i as int), referenced_blob_ids@).map_values(
                |id: u64| blob_file_name_spec(id),
            ),
        decreases blob_ids@.len() - i,
    {
        let id = blob_ids[i];
        proof {
            reveal(Seq::filter);
            assert(blob_ids@.take(i + 1).drop_last() =~= blob_ids@.take(i as int));
            assert(blob_ids@.take(i + 1).last() == id);
        }
        if !contains_u64(referenced_blob_ids, id) {
            let ghost before = files@;
            files.push(blob_file_name(id));
            proof {
                assert(string_views(files@) =~= string_views(before).push(blob_file_name_spec(id)));
            }
        }
        i = i + 1;
    }
    proof {
        assert(blob_ids@.take(i as int) =~= blob_ids@);
    }
    let ghost blob_files = files@;
    let mut j: usize = 0;
    while j < table_ids.len()
        invariant
            j <= table_ids@.len(),
            string_views(blob_files) == blob_part,
            blob_part == unreferenced_ids(blob_ids@, referenced_blob_ids@).map_values(|id: u64| blob_file_name_spec(id)),
            string_views(files@) == blob_part + unreferenced_ids(table_ids@.take(j as int), referenced_table_ids@).map_values(
                |id: u64| table_file_name_spec(TableId(id)),
            ),
        decreases table_ids@.len() - j,
    {
        let id = table_ids[j];
        proof {
            reveal(Seq::filter);
            assert(table_ids@.take(j + 1).drop_last() =~= table_ids@.take(j as int));
            assert(table_ids@.take(j + 1).last() == id);
        }
        if !contains_u64(referenced_table_ids, id) {
            let ghost before = files@;
            files.push(table_file_name(TableId(id)));
            proof {
                assert(string_views(files@) =~= string_views(before).push(table_file_name_spec(TableId(id))));
            }
        }
        j = j + 1;
    }
    proof {
        assert(table_ids@.take(j as int) =~= table_ids@);
    }
    files
}

/// Names joined with `, `.
pub open spec fn joined(names: Seq<Seq<char>>) -> Seq<char>
    decreases names.len(),
{
    if names.len() == 0 {
        Seq::empty()
    } else if names.len() == 1 {
        names[0]
    } else {
        joined(names.drop_last()) + ", "@ + names.last()
    }
}

/// `prefix` followed by the names joined with `, `.
pub fn join_names(prefix: &str, names: &[String]) -> (r: String)
    ensures
        r@ == prefix@ + joined(string_views(names@)),
{
    let ghost nv = string_views(names@);
    let mut message = String::from_str(prefix);
    let mut i: usize = 0;
    while i < names.len()
        invariant
            i <= names@.len(),
            nv == string_views(names@),
            message@ == prefix@ + joined(nv.take(i as int)),
        decreases names@.len() - i,
    {
        let ghost before = message@;
        if i > 0 {
            message.append(", ");
        }
        message.append(names[i].as_str());
        proof {
            assert(nv.take(i + 1).drop_last() =~= nv.take(i as int));
            assert(nv.take(i + 1).last() == names@[i as int]@);
            if i == 0 {
                assert(nv.take(1)[0] == names@[0]@);
                assert(message@ =~= prefix@ + joined(nv.take(1)));
            } else {
                assert(message@ =~= prefix@ + (joined(nv.take(i as int)) + ", "@ + names@[i as int]@));
            }
        }
        i = i + 1;
    }
    proof {
        assert(nv.take(i as int) =~= nv);
    }
    message
}

/// Storage files that the manifest does not refer to need an operator's
/// review: their presence fails the open with an error that names them.
pub fn check_unreferenced_storage_files(unreferenced_files: &[String]) -> (r: Result<()>)
    ensures
        unreferenced_files@.len() == 0 <==> r is Ok,
        r matches Err(e) ==> e.kind() == ErrorKind::Corruption && e.message_view()
            == "unreferenced table/blob files require operator review: "@ + joined(
            string_views(unreferenced_files@),
        ),
{
    if unreferenced_files.len() == 0 {
        return Ok(());
    }
    let message = join_names("unreferenced table/blob files require operator review: ", unreferenced_files);
    Err(Error::Corruption { message })
}

// ---------------------------------------------------------------- sorted names

/// Names in ascending order of their UTF-8 bytes, as `String`'s order has
/// them.
pub open spec fn names_in_order(names: Seq<Seq<char>>) -> bool {
    forall|i: int, j: int|
        0 <= i < j < names.len() ==> bytes_le(name_key(#[trigger] names[i]), name_key(#[trigger] names[j]))
}

pub open spec fn temporary_names(names: Seq<Seq<char>>) -> Seq<Seq<char>> {
    names.filter(|n: Seq<char>| spec_is_safe_temporary_file(n))
}

/// Inserts a name before the first name that sorts after it.
fn insert_in_order(names: &mut Vec<String>, name: String)
    requires
        names_in_order(string_views(old(names)@)),
    ensures
        names_in_order(string_views(final(names)@)),
        string_views(final(names)@).to_multiset() == string_views(old(names)@).to_multiset().insert(name@),
{
    let ghost before = string_views(names@);
    let key = text_bytes(name.as_str());
    let mut p: usize = 0;
    let mut found = false;
    while !found && p < names.len()
        invariant
            p <= names@.len(),
            before == string_views(names@),
            key@ == name_key(name@),
            forall|j: int| 0 <= j < p ==> bytes_le(name_key(#[trigger] before[j]), name_key(name@)),
            found ==> p < names@.len() && bytes_lt(name_key(name@), name_key(before[p as int])),
        decreases names@.len() - p, if found { 0int } else { 1int },
    {
        let other = text_bytes(names[p].as_str());
        proof {
            assert(before[p as int] == names@[p as int]@);
            lemma_bytes_order_properties(key@, other@);
        }
        match compare_bytes(key, other) {
            Order::Less => {
                found = true;
            },
            _ => {
                p = p + 1;
            },
        }
    }
    proof {
        assert forall|j: int| p <= j < before.len() implies bytes_le(name_key(name@), name_key(#[trigger] before[j])) by {
            assert(bytes_lt(name_key(name@), name_key(before[p as int])));
            if j > p {
                lemma_bytes_order_trans(name_key(name@), name_key(before[p as int]), name_key(before[j]));
            }
        }
    }
    names.insert(p, name);
    proof {
        let after = string_views(names@);
        assert(after =~= before.insert(p as int, name@));
        assert forall|i: int, j: int| 0 <= i < j < after.len() implies bytes_le(name_key(#[trigger] after[i]), name_key(#[trigger] after[j])) by {
            if i < p && j > p {
                lemma_bytes_order_trans(name_key(before[i]), name_key(name@), name_key(before[j - 1]));
            }
        }
        vstd::seq_lib::to_multiset_insert(before, p as int, name@);
    }
}

/// The names of the temporary leftovers of atomic writes among the files of
/// a directory, sorted.
pub fn safe_temporary_files(file_names: Vec<String>) -> (r: Vec<String>)
    ensures
        names_in_order(string_views(r@)),
        string_views(r@).to_multiset() == temporary_names(string_views(file_names@)).to_multiset(),
{
    broadcast use vstd::seq_lib::group_to_multiset_ensures;

    let ghost all = string_views(file_names@);
    let mut files: Vec<String> = Vec::new();
    let mut rest = file_names;
    let ghost mut i: int = 0;
    proof {
        assert(string_views(files@).to_multiset() =~= Multiset::<Seq<char>>::empty());
        assert(temporary_names(all.take(0)) =~= Seq::<Seq<char>>::empty());
        assert(Seq::<Seq<char>>::empty().to_multiset() =~= Multiset::<Seq<char>>::empty());
    }
    while rest.len() > 0
        invariant
            0 <= i <= all.len(),
            string_views(rest@) == all.skip(i),
            names_in_order(string_views(files@)),
            string_views(files@).to_multiset() == temporary_names(all.take(i)).to_multiset(),
        decreases rest@.len(),
    {
        let ghost rest_before = rest@;
        let name = rest.remove(0);
        proof {
            assert(name == rest_before[0]);
            assert(string_views(rest_before)[0] == rest_before[0]@);
            assert(string_views(rest_before)[0] == all.skip(i)[0]);
            assert(string_views(rest_before).len() == rest_before.len());
            assert(i < all.len());
            assert(all.skip(i)[0] == all[i]);
            assert(name@ == all[i]);
            assert(string_views(rest@) =~= string_views(rest_before).skip(1));
        }
        proof {
            reveal(Seq::filter);
            assert(all.take(i + 1).drop_last() =~= all.take(i));
            assert(all.take(i + 1).last() == all[i]);
        }
        if is_safe_temporary_file(name.as_str()) {
            let ghost before = string_views(files@);
            insert_in_order(&mut files, name);
            proof {
                vstd::seq_lib::to_multiset_build(temporary_names(all.take(i)), all[i]);
            }
        }
        proof {
            assert(string_views(rest@) =~= all.skip(i + 1));
            i = i + 1;
        }
    }
    proof {
        assert(all.skip(i).len() == 0);
        assert(all.take(i) =~= all);
    }
    files
}

// ---------------------------------------------------------------- names the store writes

proof fn lemma_digit_char(d: nat)
    requires
        d < 10,
    ensures
        '0' <= crate::text::digit_char(d) <= '9',
        (crate::text::digit_char(d) as u32) - ('0' as u32) == d,
{
}

proof fn lemma_decimal_digits(v: nat)
    ensures
        crate::text::decimal(v).len() > 0,
        all_digits(crate::text::decimal(v)),
        digits_value(crate::text::decimal(v)) == v,
    decreases v,
{
    let d = crate::text::decimal(v);
    if v < 10 {
        lemma_digit_char(v);
        assert(d.drop_last() =~= Seq::<char>::empty());
        assert(d.last() == crate::text::digit_char(v));
        assert(digits_value(d.drop_last()) == 0);
        assert(((d.last() as u32) - ('0' as u32)) as nat == v);
        assert(digits_value(d) == digits_value(d.drop_last()) * 10 + ((d.last() as u32) - ('0' as u32)) as nat);
    } else {
        lemma_decimal_digits(v / 10);
        lemma_digit_char(v % 10);
        assert(d.drop_last() =~= crate::text::decimal(v / 10));
        assert(d.last() == crate::text::digit_char(v % 10));
        assert(v == (v / 10) * 10 + v % 10) by (nonlinear_arith);
        assert(digits_value(d.drop_last()) == v / 10);
        assert(((d.last() as u32) - ('0' as u32)) as nat == v % 10);
        assert(digits_value(d) == digits_value(d.drop_last()) * 10 + ((d.last() as u32) - ('0' as u32)) as nat);
    }
}

proof fn lemma_zeros_value(z: nat)
    ensures
        digits_value(Seq::new(z, |i: int| '0')) == 0,
        all_digits(Seq::new(z, |i: int| '0')),
    decreases z,
{
    if z > 0 {
        lemma_zeros_value((z - 1) as nat);
        assert(Seq::new(z, |i: int| '0').drop_last() =~= Seq::new((z - 1) as nat, |i: int| '0'));
    }
}

proof fn lemma_zero_prefix(z: nat, s: Seq<char>)
    requires
        all_digits(s),
    ensures
        digits_value(Seq::new(z, |i: int| '0') + s) == digits_value(s),
        all_digits(Seq::new(z, |i: int| '0') + s),
    decreases s.len(),
{
    let zeros = Seq::new(z, |i: int| '0');
    if s.len() == 0 {
        lemma_zeros_value(z);
        assert(zeros + s =~= zeros);
    } else {
        lemma_zero_prefix(z, s.drop_last());
        assert((zeros + s).drop_last() =~= zeros + s.drop_last());
    }
}

proof fn lemma_padded_digits(v: nat, width: nat)
    ensures
        crate::text::decimal_padded(v, width).len() > 0,
        all_digits(crate::text::decimal_padded(v, width)),
        digits_value(crate::text::decimal_padded(v, width)) == v,
{
    lemma_decimal_digits(v);
    let digits = crate::text::decimal(v);
    if digits.len() < width {
        lemma_zero_prefix((width - digits.len()) as nat, digits);
    }
}

proof fn lemma_last_dot_at(s: Seq<char>, n: int, p: int)
    requires
        0 <= p < n <= s.len(),
        s[p] == '.',
        forall|k: int| p < k < n ==> s[k] != '.',
    ensures
        last_dot(s, n) == Some(p),
    decreases n - p,
{
    if n - 1 > p {
        lemma_last_dot_at(s, n - 1, p);
    }
}

/// The name of a storage file of a kind, with the id as 20 digits, parses
/// back to its id.
proof fn lemma_storage_name_round_trip(prefix: Seq<char>, extension: Seq<char>, id: u64)
    requires
        prefix.len() > 0,
        forall|k: int| 0 <= k < extension.len() ==> extension[k] != '.',
    ensures
        spec_storage_name(prefix + crate::text::decimal_padded(id as nat, 20) + "."@ + extension, prefix, extension)
            == StorageName::Id(id),
{
    reveal_strlit(".");
    let digits = crate::text::decimal_padded(id as nat, 20);
    let name = prefix + digits + "."@ + extension;
    let p: int = (prefix.len() + digits.len()) as int;
    lemma_padded_digits(id as nat, 20);
    assert(name[p] == '.');
    assert forall|k: int| p < k < name.len() implies name[k] != '.' by {
        assert(name[k] == extension[k - p - 1]);
    }
    lemma_last_dot_at(name, name.len() as int, p);
    assert(name.skip(p + 1) =~= extension);
    assert(name.take(p) =~= prefix + digits);
    assert(prefix.is_prefix_of(prefix + digits)) by {
        assert((prefix + digits).take(prefix.len() as int) =~= prefix);
    }
    assert((prefix + digits).skip(prefix.len() as int) =~= digits);
    assert(digits[0] != '+');
}

/// A blob file's name, as the store writes it, parses back to the file's id:
/// listing a directory finds the blob files that were written.
pub proof fn lemma_blob_file_name_round_trip(file_id: u64)
    ensures
        spec_storage_name(crate::blob::blob_file_name_spec(file_id), "blob-"@, BLOB_FILE_EXTENSION@) == StorageName::Id(
            file_id,
        ),
{
    reveal_strlit("blob-");
    reveal_strlit("trineb");
    lemma_storage_name_round_trip("blob-"@, BLOB_FILE_EXTENSION@, file_id);
}

/// A table file's name, as the store writes it, parses back to the table's
/// id.
pub proof fn lemma_table_file_name_round_trip(table_id: TableId)
    ensures
        spec_storage_name(table_file_name_spec(table_id), "table-"@, TABLE_FILE_EXTENSION@) == StorageName::Id(
            table_id.0,
        ),
{
    reveal_strlit("table-");
    reveal_strlit("trinet");
    lemma_storage_name_round_trip("table-"@, TABLE_FILE_EXTENSION@, table_id.0);
}

/// The file that writing a table or blob file leaves before its rename (the
/// file's name with the extension `tmp`) is a safe temporary file.
pub proof fn lemma_write_leftovers_are_safe(id: u64)
    ensures
        spec_is_safe_temporary_file("table-"@ + crate::text::decimal_padded(id as nat, 20) + ".tmp"@),
        spec_is_safe_temporary_file("blob-"@ + crate::text::decimal_padded(id as nat, 20) + ".tmp"@),
{
    reveal_strlit("table-");
    reveal_strlit("blob-");
    reveal_strlit(".tmp");
    reveal_strlit("tmp");
    reveal_strlit(".");
    let digits = crate::text::decimal_padded(id as nat, 20);
    lemma_padded_digits(id as nat, 20);
    assert(".tmp"@ =~= "."@ + "tmp"@);
    assert forall|k: int| 0 <= k < digits.len() implies digits[k] != '.' by {}
    lemma_tmp_name("table-"@, digits);
    lemma_tmp_name("blob-"@, digits);
}

proof fn lemma_tmp_name(prefix: Seq<char>, digits: Seq<char>)
    requires
        prefix.len() > 0,
        all_digits(digits),
        forall|k: int| 0 <= k < prefix.len() ==> prefix[k] != '.',
    ensures
        prefix.is_prefix_of(prefix + digits + ".tmp"@),
        spec_has_tmp_extension(prefix + digits + ".tmp"@),
{
    reveal_strlit(".tmp");
    reveal_strlit("tmp");
    let name = prefix + digits + ".tmp"@;
    let p: int = (prefix.len() + digits.len()) as int;
    assert(name[p] == '.');
    assert forall|k: int| p < k < name.len() implies name[k] != '.' by {}
    lemma_last_dot_at(name, name.len() as int, p);
    assert(name.skip(p + 1) =~= "tmp"@);
    assert(name.take(prefix.len() as int) =~= prefix);
}

} // verus!
