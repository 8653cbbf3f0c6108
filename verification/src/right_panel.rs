//! The play-queue sorter: the files shown in the right panel, ordered by a
//! chosen column, ascending or descending, case-insensitively for text
//! columns.  The sort is stable: files with equal keys keep their order.

use vstd::prelude::*;
use vstd::multiset::Multiset;
use crate::text::{lex_le, base_name_of, base_name, last_index_of, find_last_char, str_le,
    push_char};

verus! {

/// Which column the right panel is ordered by.
#[derive(Debug, Clone, PartialEq)]
pub enum SortColumn {
    Directory,
    File,
    Creator,
    Album,
    Title,
    Genre,
    Duration,
}

/// Ascending or descending.
#[derive(Debug, Clone, PartialEq)]
pub enum SortOrder {
    Asc,
    Desc,
}

/// One file of the right panel, with the tag fields its columns show.
#[derive(Debug, Clone, PartialEq)]
pub struct RightPanelFile {
    pub path: String,
    pub creator: Option<String>,
    pub album: Option<String>,
    pub title: Option<String>,
    pub genre: Option<String>,
    pub duration_ms: Option<u64>,
}

/// ASCII lowercasing of one character.
pub open spec fn lower_char(c: char) -> char {
    if 65 <= c as u32 <= 90 {
        (((c as u32) + 32) as u8) as char
    } else {
        c
    }
}

/// ASCII lowercasing of a text.
pub open spec fn lower(s: Seq<char>) -> Seq<char> {
    s.map_values(|c: char| lower_char(c))
}

/// The name of the directory holding `path`: the path component before the
/// last slash, or nothing when there is none.
pub open spec fn parent_name_of(path: Seq<char>) -> Seq<char> {
    let d = last_index_of(path, '/');
    if d == -1 {
        Seq::empty()
    } else {
        base_name_of(path.take(d))
    }
}

/// The text a tag column shows: the tag, or nothing when it is missing.
pub open spec fn opt_text(o: Option<String>) -> Seq<char> {
    match o {
        Some(s) => s@,
        None => Seq::empty(),
    }
}

/// The text key a file is compared by under a column, lowercased.
pub open spec fn column_key(f: RightPanelFile, column: SortColumn) -> Seq<char> {
    match column {
        SortColumn::Directory => lower(parent_name_of(f.path@)),
        SortColumn::File => lower(base_name_of(f.path@)),
        SortColumn::Creator => lower(opt_text(f.creator)),
        SortColumn::Album => lower(opt_text(f.album)),
        SortColumn::Title => lower(opt_text(f.title)),
        SortColumn::Genre => lower(opt_text(f.genre)),
        SortColumn::Duration => Seq::empty(),
    }
}

/// The duration a file is compared by: its tag, or zero when missing.
pub open spec fn duration_key(f: RightPanelFile) -> u64 {
    match f.duration_ms {
        Some(d) => d,
        None => 0u64,
    }
}

/// Whether `a` comes no later than `b` under the column, ascending.
pub open spec fn file_le_by(a: RightPanelFile, b: RightPanelFile, column: SortColumn) -> bool {
    match column {
        SortColumn::Duration => duration_key(a) <= duration_key(b),
        _ => lex_le(column_key(a, column), column_key(b, column)),
    }
}

/// Whether `a` comes no later than `b` under the column and order.
pub open spec fn file_le(
    a: RightPanelFile,
    b: RightPanelFile,
    column: SortColumn,
    order: SortOrder,
) -> bool {
    match order {
        SortOrder::Asc => file_le_by(a, b, column),
        SortOrder::Desc => file_le_by(b, a, column),
    }
}

/// Stable insertion: `x` goes after every file that compares no greater.
pub open spec fn spec_sorted_insert(
    files: Seq<RightPanelFile>,
    x: RightPanelFile,
    column: SortColumn,
    order: SortOrder,
) -> Seq<RightPanelFile>
    decreases files.len(),
{
    if files.len() == 0 {
        seq![x]
    } else if file_le(files[0], x, column, order) {
        seq![files[0]] + spec_sorted_insert(files.drop_first(), x, column, order)
    } else {
        seq![x] + files
    }
}

/// The stable sort of the files under the column and order: each file in
/// turn inserted after its equals.
pub open spec fn spec_sort_files(
    files: Seq<RightPanelFile>,
    column: SortColumn,
    order: SortOrder,
) -> Seq<RightPanelFile>
    decreases files.len(),
{
    if files.len() == 0 {
        Seq::empty()
    } else {
        spec_sorted_insert(
            spec_sort_files(files.drop_last(), column, order),
            files.last(),
            column,
            order,
        )
    }
}

proof fn lemma_sorted_insert_skip(
    files: Seq<RightPanelFile>,
    x: RightPanelFile,
    column: SortColumn,
    order: SortOrder,
    k: int,
)
    requires
        0 <= k <= files.len(),
        forall|j: int| 0 <= j < k ==> file_le(#[trigger] files[j], x, column, order),
    ensures
        spec_sorted_insert(files, x, column, order) == files.take(k) + spec_sorted_insert(
            files.skip(k),
            x,
            column,
            order,
        ),
    decreases k,
{
    if k == 0 {
        assert(files.skip(0) =~= files);
        assert(files.take(0) + spec_sorted_insert(files, x, column, order) =~= spec_sorted_insert(
            files,
            x,
            column,
            order,
        ));
    } else {
        let rest = files.drop_first();
        assert forall|j: int| 0 <= j < k - 1 implies file_le(
            #[trigger] rest[j],
            x,
            column,
            order,
        ) by {
            assert(rest[j] == files[j + 1]);
        }
        lemma_sorted_insert_skip(rest, x, column, order, k - 1);
        assert(rest.skip(k - 1) =~= files.skip(k));
        assert(seq![files[0]] + (rest.take(k - 1) + spec_sorted_insert(
            files.skip(k),
            x,
            column,
            order,
        )) =~= files.take(k) + spec_sorted_insert(files.skip(k), x, column, order));
    }
}

/// ASCII-lowercases a text.
fn ascii_lower(s: &str) -> (r: String)
    ensures
        r@ == lower(s@),
{
    let n = s.unicode_len();
    let mut out = String::new();
    let mut i: usize = 0;
    proof {
        assert(out@ =~= lower(s@.take(0)));
    }
    while i < n
        invariant
            0 <= i <= n,
            n == s@.len(),
            out@ == lower(s@.take(i as int)),
        decreases n - i,
    {
        let ghost pre = out@;
        let c = s.get_char(i);
        let u = c as u32;
        let lc: char = if 65 <= u && u <= 90 {
            ((u + 32) as u8) as char
        } else {
            c
        };
        push_char(&mut out, lc);
        proof {
            assert(lc == lower_char(s@[i as int]));
            assert(out@ =~= lower(s@.take(i as int + 1)));
        }
        i = i + 1;
    }
    proof {
        assert(s@.take(n as int) =~= s@);
    }
    out
}

/// The directory-name column text of a path.
fn parent_name(path: &str) -> (r: String)
    ensures
        r@ == parent_name_of(path@),
{
    proof {
        crate::text::lemma_last_index_of(path@, '/');
    }
    match find_last_char(path, '/') {
        Some(d) => {
            let front = path.substring_char(0, d);
            let r = base_name(front);
            proof {
                assert(path@.take(d as int) == front@);
            }
            r
        },
        None => String::new(),
    }
}

/// The lowercased text key of a file under a text column.
fn column_key_of(f: &RightPanelFile, column: &SortColumn) -> (r: String)
    requires
        !(column is Duration),
    ensures
        r@ == column_key(*f, *column),
{
    match column {
        SortColumn::Directory => ascii_lower(parent_name(f.path.as_str()).as_str()),
        SortColumn::File => ascii_lower(base_name(f.path.as_str()).as_str()),
        SortColumn::Creator => match &f.creator {
            Some(s) => ascii_lower(s.as_str()),
            None => String::new(),
        },
        SortColumn::Album => match &f.album {
            Some(s) => ascii_lower(s.as_str()),
            None => String::new(),
        },
        SortColumn::Title => match &f.title {
            Some(s) => ascii_lower(s.as_str()),
            None => String::new(),
        },
        SortColumn::Genre => match &f.genre {
            Some(s) => ascii_lower(s.as_str()),
            None => String::new(),
        },
        SortColumn::Duration => String::new(),
    }
}

/// Decides `file_le` executably.
fn file_le_exec(
    a: &RightPanelFile,
    b: &RightPanelFile,
    column: &SortColumn,
    order: &SortOrder,
) -> (r: bool)
    ensures
        r == file_le(*a, *b, *column, *order),
{
    let (x, y) = match order {
        SortOrder::Asc => (a, b),
        SortOrder::Desc => (b, a),
    };
    match column {
        SortColumn::Duration => {
            let dx = match x.duration_ms {
                Some(d) => d,
                None => 0u64,
            };
            let dy = match y.duration_ms {
                Some(d) => d,
                None => 0u64,
            };
            dx <= dy
        },
        _ => {
            let kx = column_key_of(x, column);
            let ky = column_key_of(y, column);
            str_le(kx.as_str(), ky.as_str())
        },
    }
}

/// A field-for-field copy of a file record.
fn duplicate_file(f: &RightPanelFile) -> (r: RightPanelFile)
    ensures
        r == *f,
{
    RightPanelFile {
        path: f.path.clone(),
        creator: match &f.creator {
            Some(s) => Some(s.clone()),
            None => None,
        },
        album: match &f.album {
            Some(s) => Some(s.clone()),
            None => None,
        },
        title: match &f.title {
            Some(s) => Some(s.clone()),
            None => None,
        },
        genre: match &f.genre {
            Some(s) => Some(s.clone()),
            None => None,
        },
        duration_ms: f.duration_ms,
    }
}

/// The files sorted by the chosen column and order: exactly the stable
/// sort [`spec_sort_files`] of the input, which leaves files with equal
/// keys in their given order.
pub fn sorted_right_panel_files(
    files: &Vec<RightPanelFile>,
    column: &SortColumn,
    order: &SortOrder,
) -> (r: Vec<RightPanelFile>)
    ensures
        r@ == spec_sort_files(files@, *column, *order),
{
    let mut out: Vec<RightPanelFile> = Vec::new();
    let n = files.len();
    let mut i: usize = 0;
    proof {
        assert(out@ =~= spec_sort_files(files@.take(0), *column, *order));
    }
    while i < n
        invariant
            0 <= i <= n,
            n == files@.len(),
            out@ == spec_sort_files(files@.take(i as int), *column, *order),
        decreases n - i,
    {
        let ghost sorted = out@;
        let x = duplicate_file(&files[i]);
        let m = out.len();
        let mut pos: usize = 0;
        while pos < m
            invariant_except_break
                0 <= pos <= m,
                m == out@.len(),
                out@ == sorted,
                x == files@[i as int],
                forall|j: int| 0 <= j < pos ==> file_le(#[trigger] out@[j], x, *column, *order),
            ensures
                0 <= pos <= m,
                m == out@.len(),
                out@ == sorted,
                x == files@[i as int],
                forall|j: int| 0 <= j < pos ==> file_le(#[trigger] out@[j], x, *column, *order),
                pos < m ==> !file_le(out@[pos as int], x, *column, *order),
            decreases m - pos,
        {
            if !file_le_exec(&out[pos], &x, column, order) {
                break;
            }
            pos = pos + 1;
        }
        proof {
            lemma_sorted_insert_skip(sorted, x, *column, *order, pos as int);
            if pos < m {
                assert(spec_sorted_insert(sorted.skip(pos as int), x, *column, *order) == seq![x]
                    + sorted.skip(pos as int));
            } else {
                assert(sorted.skip(pos as int) =~= Seq::<RightPanelFile>::empty());
            }
        }
        out.insert(pos, x);
        proof {
            assert(out@ =~= spec_sorted_insert(sorted, x, *column, *order));
            assert(files@.take(i as int + 1).drop_last() =~= files@.take(i as int));
            assert(files@.take(i as int + 1).last() == files@[i as int]);
        }
        i = i + 1;
    }
    proof {
        assert(files@.take(n as int) =~= files@);
    }
    out
}

/// Whether `p` lies at or beneath the directory `d`: it is `d` itself, or
/// continues `d` right after a slash.
pub open spec fn path_in_dir(p: Seq<char>, d: Seq<char>) -> bool {
    p == d || (p.len() > d.len() && p.take(d.len() as int) == d && p[d.len() as int] == '/')
}

/// Whether some file of the panel has the path `p`.
pub open spec fn panel_has_path(files: Seq<RightPanelFile>, p: Seq<char>) -> bool
    decreases files.len(),
{
    if files.len() == 0 {
        false
    } else {
        panel_has_path(files.drop_last(), p) || files.last().path@ == p
    }
}

/// The panel without the file at path `p`.
pub open spec fn spec_remove_path(files: Seq<RightPanelFile>, p: Seq<char>) -> Seq<RightPanelFile>
    decreases files.len(),
{
    if files.len() == 0 {
        Seq::empty()
    } else {
        let prev = spec_remove_path(files.drop_last(), p);
        if files.last().path@ == p {
            prev
        } else {
            prev.push(files.last())
        }
    }
}

/// The panel without the files at or beneath the directory `d`.
pub open spec fn spec_remove_dir(files: Seq<RightPanelFile>, d: Seq<char>) -> Seq<RightPanelFile>
    decreases files.len(),
{
    if files.len() == 0 {
        Seq::empty()
    } else {
        let prev = spec_remove_dir(files.drop_last(), d);
        if path_in_dir(files.last().path@, d) {
            prev
        } else {
            prev.push(files.last())
        }
    }
}

/// Decides whether the panel already holds the path.
pub fn right_panel_contains_path(files: &Vec<RightPanelFile>, path: &String) -> (r: bool)
    ensures
        r == panel_has_path(files@, path@),
{
    let n = files.len();
    let mut i: usize = 0;
    proof {
        assert(!panel_has_path(files@.take(0), path@));
    }
    while i < n
        invariant
            0 <= i <= n,
            n == files@.len(),
            !panel_has_path(files@.take(i as int), path@),
        decreases n - i,
    {
        proof {
            assert(files@.take(i as int + 1).drop_last() =~= files@.take(i as int));
            assert(files@.take(i as int + 1).last() == files@[i as int]);
        }
        if files[i].path == *path {
            proof {
                assert(panel_has_path(files@.take(i as int + 1), path@));
                lemma_panel_has_path_extends(files@, path@, i as int + 1);
            }
            return true;
        }
        i = i + 1;
    }
    proof {
        assert(files@.take(n as int) =~= files@);
    }
    false
}

proof fn lemma_panel_has_path_extends(files: Seq<RightPanelFile>, p: Seq<char>, k: int)
    requires
        0 <= k <= files.len(),
        panel_has_path(files.take(k), p),
    ensures
        panel_has_path(files, p),
    decreases files.len() - k,
{
    if k < files.len() {
        assert(files.take(k + 1).drop_last() =~= files.take(k));
        lemma_panel_has_path_extends(files, p, k + 1);
    } else {
        assert(files.take(k) =~= files);
    }
}

/// Adds a file to the panel unless a file with its path is already there.
pub fn add_to_right_panel(files: &mut Vec<RightPanelFile>, file: RightPanelFile)
    ensures
        final(files)@ == if panel_has_path(old(files)@, file.path@) {
            old(files)@
        } else {
            old(files)@.push(file)
        },
{
    if !right_panel_contains_path(files, &file.path) {
        files.push(file);
    }
}

/// Removes the file at `path` from the panel; a path that is not there
/// leaves the panel unchanged.
pub fn remove_from_right_panel(files: &mut Vec<RightPanelFile>, path: &String)
    ensures
        final(files)@ == spec_remove_path(old(files)@, path@),
{
    let ghost orig = files@;
    let mut kept: Vec<RightPanelFile> = Vec::new();
    let n = files.len();
    let mut i: usize = 0;
    proof {
        assert(kept@ =~= spec_remove_path(orig.take(0), path@));
    }
    while i < n
        invariant
            0 <= i <= n,
            n == files@.len(),
            files@ == orig,
            kept@ == spec_remove_path(orig.take(i as int), path@),
        decreases n - i,
    {
        proof {
            assert(orig.take(i as int + 1).drop_last() =~= orig.take(i as int));
            assert(orig.take(i as int + 1).last() == orig[i as int]);
        }
        if !(files[i].path == *path) {
            kept.push(duplicate_file(&files[i]));
        }
        i = i + 1;
    }
    proof {
        assert(orig.take(n as int) =~= orig);
    }
    *files = kept;
}

/// Decides `path_in_dir` executably.
fn path_in_dir_exec(p: &String, d: &String) -> (r: bool)
    ensures
        r == path_in_dir(p@, d@),
{
    if *p == *d {
        return true;
    }
    let p_len = p.as_str().unicode_len();
    let d_len = d.as_str().unicode_len();
    if p_len <= d_len {
        return false;
    }
    let front = p.as_str().substring_char(0, d_len);
    if !(String::from_str(front) == *d) {
        return false;
    }
    p.as_str().get_char(d_len) == '/'
}

/// Removes every file at or beneath the directory `dir_path` from the
/// panel.
pub fn remove_directory_from_right_panel(files: &mut Vec<RightPanelFile>, dir_path: &String)
    ensures
        final(files)@ == spec_remove_dir(old(files)@, dir_path@),
{
    let ghost orig = files@;
    let mut kept: Vec<RightPanelFile> = Vec::new();
    let n = files.len();
    let mut i: usize = 0;
    proof {
        assert(kept@ =~= spec_remove_dir(orig.take(0), dir_path@));
    }
    while i < n
        invariant
            0 <= i <= n,
            n == files@.len(),
            files@ == orig,
            kept@ == spec_remove_dir(orig.take(i as int), dir_path@),
        decreases n - i,
    {
        proof {
            assert(orig.take(i as int + 1).drop_last() =~= orig.take(i as int));
            assert(orig.take(i as int + 1).last() == orig[i as int]);
        }
        if !path_in_dir_exec(&files[i].path, dir_path) {
            kept.push(duplicate_file(&files[i]));
        }
        i = i + 1;
    }
    proof {
        assert(orig.take(n as int) =~= orig);
    }
    *files = kept;
}

/// Adjacent files of `f` are ordered under the column and order.
pub open spec fn files_sorted(f: Seq<RightPanelFile>, column: SortColumn, order: SortOrder) -> bool
    decreases f.len(),
{
    if f.len() == 0 {
        true
    } else {
        &&& f.len() >= 2 ==> file_le(f[0], f[1], column, order)
        &&& files_sorted(f.drop_first(), column, order)
    }
}

/// `file_le` is total: of any two files, one comes no later than the other.
proof fn lemma_file_le_total(
    a: RightPanelFile,
    b: RightPanelFile,
    column: SortColumn,
    order: SortOrder,
)
    ensures
        file_le(a, b, column, order) || file_le(b, a, column, order),
{
    match column {
        SortColumn::Duration => {},
        _ => {
            crate::text::lemma_lex_le_total(column_key(a, column), column_key(b, column));
        },
    }
}

proof fn lemma_sorted_insert_sorted(
    files: Seq<RightPanelFile>,
    x: RightPanelFile,
    column: SortColumn,
    order: SortOrder,
)
    requires
        files_sorted(files, column, order),
    ensures
        files_sorted(spec_sorted_insert(files, x, column, order), column, order),
    decreases files.len(),
{
    let r = spec_sorted_insert(files, x, column, order);
    assert(files_sorted(Seq::<RightPanelFile>::empty(), column, order));
    if files.len() == 0 {
        assert(r =~= seq![x]);
        assert(r.drop_first() =~= Seq::<RightPanelFile>::empty());
        assert(files_sorted(r, column, order));
    } else if file_le(files[0], x, column, order) {
        let rest = files.drop_first();
        let rr = spec_sorted_insert(rest, x, column, order);
        lemma_sorted_insert_sorted(rest, x, column, order);
        assert(r =~= seq![files[0]] + rr);
        assert(r.drop_first() =~= rr);
        assert(r[0] == files[0]);
        assert(r[1] == rr[0]);
        if rest.len() == 0 {
            assert(rr =~= seq![x]);
        } else if file_le(rest[0], x, column, order) {
            assert(rr[0] == rest[0]);
            assert(files[1] == rest[0]);
        } else {
            assert(rr[0] == x);
        }
        assert(files_sorted(r, column, order));
    } else {
        lemma_file_le_total(files[0], x, column, order);
        assert(r =~= seq![x] + files);
        assert(r.drop_first() =~= files);
        assert(r[0] == x);
        assert(r[1] == files[0]);
        assert(files_sorted(r, column, order));
    }
}

/// The ordering law of the sorter: the files it returns are ordered under
/// the chosen column and order, adjacent pair by adjacent pair.
pub proof fn lemma_sort_files_sorted(
    files: Seq<RightPanelFile>,
    column: SortColumn,
    order: SortOrder,
)
    ensures
        files_sorted(spec_sort_files(files, column, order), column, order),
    decreases files.len(),
{
    if files.len() == 0 {
        assert(files_sorted(Seq::<RightPanelFile>::empty(), column, order));
    } else {
        lemma_sort_files_sorted(files.drop_last(), column, order);
        lemma_sorted_insert_sorted(
            spec_sort_files(files.drop_last(), column, order),
            files.last(),
            column,
            order,
        );
    }
}

proof fn lemma_sorted_insert_multiset(
    files: Seq<RightPanelFile>,
    x: RightPanelFile,
    column: SortColumn,
    order: SortOrder,
)
    ensures
        spec_sorted_insert(files, x, column, order).to_multiset() == files.to_multiset().insert(
            x,
        ),
    decreases files.len(),
{
    broadcast use vstd::seq_lib::lemma_multiset_commutative;
    broadcast use vstd::seq_lib::group_to_multiset_ensures;

    let r = spec_sorted_insert(files, x, column, order);
    if files.len() == 0 {
        assert(r =~= Seq::<RightPanelFile>::empty().push(x));
        assert(r.to_multiset() =~= files.to_multiset().insert(x));
    } else if file_le(files[0], x, column, order) {
        let rest = files.drop_first();
        lemma_sorted_insert_multiset(rest, x, column, order);
        assert(r == seq![files[0]] + spec_sorted_insert(rest, x, column, order));
        assert(seq![files[0]].to_multiset() =~= Multiset::<RightPanelFile>::empty().insert(
            files[0],
        ));
        assert(files =~= seq![files[0]] + rest);
        assert(r.to_multiset() =~= files.to_multiset().insert(x));
    } else {
        assert(seq![x].to_multiset() =~= Multiset::<RightPanelFile>::empty().insert(x));
        assert(r.to_multiset() =~= files.to_multiset().insert(x));
    }
}

/// The permutation law of the sorter: the files it returns are exactly the
/// files it was given, counted with multiplicity.
pub proof fn lemma_sort_files_permutes(
    files: Seq<RightPanelFile>,
    column: SortColumn,
    order: SortOrder,
)
    ensures
        spec_sort_files(files, column, order).to_multiset() == files.to_multiset(),
    decreases files.len(),
{
    broadcast use vstd::seq_lib::group_to_multiset_ensures;

    if files.len() > 0 {
        lemma_sort_files_permutes(files.drop_last(), column, order);
        lemma_sorted_insert_multiset(
            spec_sort_files(files.drop_last(), column, order),
            files.last(),
            column,
            order,
        );
        assert(files.drop_last().push(files.last()) =~= files);
        assert(files.drop_last().to_multiset().insert(files.last()) =~= files.to_multiset());
    }
}

/// The opposite order.
pub open spec fn flipped(order: SortOrder) -> SortOrder {
    match order {
        SortOrder::Asc => SortOrder::Desc,
        SortOrder::Desc => SortOrder::Asc,
    }
}

/// The sort state after the user picks a column: picking the current column
/// flips the order, picking another column selects it ascending.
pub fn apply_sort_selection(
    current_column: &SortColumn,
    current_order: &SortOrder,
    chosen: &SortColumn,
) -> (r: (SortColumn, SortOrder))
    ensures
        *current_column == *chosen ==> r == (*chosen, flipped(*current_order)),
        *current_column != *chosen ==> r == (*chosen, SortOrder::Asc),
{
    let same = match (current_column, chosen) {
        (SortColumn::Directory, SortColumn::Directory) => true,
        (SortColumn::File, SortColumn::File) => true,
        (SortColumn::Creator, SortColumn::Creator) => true,
        (SortColumn::Album, SortColumn::Album) => true,
        (SortColumn::Title, SortColumn::Title) => true,
        (SortColumn::Genre, SortColumn::Genre) => true,
        (SortColumn::Duration, SortColumn::Duration) => true,
        _ => false,
    };
    let column = match chosen {
        SortColumn::Directory => SortColumn::Directory,
        SortColumn::File => SortColumn::File,
        SortColumn::Creator => SortColumn::Creator,
        SortColumn::Album => SortColumn::Album,
        SortColumn::Title => SortColumn::Title,
        SortColumn::Genre => SortColumn::Genre,
        SortColumn::Duration => SortColumn::Duration,
    };
    if same {
        let order = match current_order {
            SortOrder::Asc => SortOrder::Desc,
            SortOrder::Desc => SortOrder::Asc,
        };
        (column, order)
    } else {
        (column, SortOrder::Asc)
    }
}

} // verus!

