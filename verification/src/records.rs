//! The record loader: ranked-list source texts are pipe-delimited rows,
//! one `composer|work` row per line, with no header. Each file yields one
//! list whose display name is the file name without its extension; rows get
//! 1-based positions in file order. A row with no delimiter is a fatal load
//! error; blank lines are skipped.

use vstd::prelude::*;

use crate::slug::name_to_slug;
use crate::slug::slug_of;

verus! {

/// One work of one composer in one ranked list, in flat form.
#[derive(Debug)]
pub struct TopListItem {
    /// Composer's human readable name
    pub composer_name: String,
    /// Composer's slug for use in a URL
    pub composer_slug: String,
    /// Name of the single work
    pub work: String,
    /// List's human readable name
    pub list_name: String,
    /// List's slug for use in a URL
    pub list_slug: String,
    /// Work's 1-based position in its list
    pub position: usize,
}

/// The mathematical value of a `TopListItem`.
#[verifier::ext_equal]
pub ghost struct ItemModel {
    pub composer_name: Seq<char>,
    pub composer_slug: Seq<char>,
    pub work: Seq<char>,
    pub list_name: Seq<char>,
    pub list_slug: Seq<char>,
    pub position: int,
}

impl View for TopListItem {
    type V = ItemModel;

    open spec fn view(&self) -> ItemModel {
        ItemModel {
            composer_name: self.composer_name@,
            composer_slug: self.composer_slug@,
            work: self.work@,
            list_name: self.list_name@,
            list_slug: self.list_slug@,
            position: self.position as int,
        }
    }
}

impl DeepView for TopListItem {
    type V = ItemModel;

    open spec fn deep_view(&self) -> ItemModel {
        self.view()
    }
}

impl Clone for TopListItem {
    fn clone(&self) -> (r: Self)
        ensures
            r == *self,
    {
        TopListItem {
            composer_name: self.composer_name.clone(),
            composer_slug: self.composer_slug.clone(),
            work: self.work.clone(),
            list_name: self.list_name.clone(),
            list_slug: self.list_slug.clone(),
            position: self.position,
        }
    }
}

/// One ranking source: a file name (whose stem becomes the list's display
/// name) and the file's text.
#[derive(Debug)]
pub struct SourceFile {
    pub name: String,
    pub text: String,
}

/// The mathematical value of a `SourceFile`.
#[verifier::ext_equal]
pub ghost struct FileModel {
    pub name: Seq<char>,
    pub text: Seq<char>,
}

impl View for SourceFile {
    type V = FileModel;

    open spec fn view(&self) -> FileModel {
        FileModel { name: self.name@, text: self.text@ }
    }
}

impl DeepView for SourceFile {
    type V = FileModel;

    open spec fn deep_view(&self) -> FileModel {
        self.view()
    }
}

/// Why a load failed: a non-blank row had no delimiter, so its work column
/// is missing.
#[derive(Debug, PartialEq, Eq, Structural)]
pub enum LoadError {
    MissingColumn,
}

/// Index of the first occurrence of `c` in `s`, or -1 when absent.
pub open spec fn find_ch(s: Seq<char>, c: char) -> int
    decreases s.len(),
{
    if s.len() == 0 {
        -1
    } else if s[0] == c {
        0
    } else {
        let r = find_ch(s.drop_first(), c);
        if r < 0 {
            -1
        } else {
            r + 1
        }
    }
}

pub proof fn lemma_find_ch(s: Seq<char>, c: char)
    ensures
        -1 <= find_ch(s, c) < s.len(),
        find_ch(s, c) >= 0 ==> s[find_ch(s, c)] == c,
        find_ch(s, c) >= 0 ==> forall|k: int| 0 <= k < find_ch(s, c) ==> s[k] != c,
        find_ch(s, c) < 0 ==> forall|k: int| 0 <= k < s.len() ==> s[k] != c,
    decreases s.len(),
{
    if s.len() == 0 {
    } else if s[0] == c {
    } else {
        let t = s.drop_first();
        lemma_find_ch(t, c);
        assert(forall|k: int| 0 <= k < t.len() ==> #[trigger] t[k] == s[k + 1]);
        let r = find_ch(t, c);
        if r >= 0 {
            assert(s[r + 1] == t[r]);
            assert forall|k: int| 0 <= k < r + 1 implies s[k] != c by {
                if k > 0 {
                    assert(s[k] == t[k - 1]);
                }
            }
        } else {
            assert forall|k: int| 0 <= k < s.len() implies s[k] != c by {
                if k > 0 {
                    assert(s[k] == t[k - 1]);
                }
            }
        }
    }
}

/// `find_ch` returns exactly the first index holding `c`.
pub proof fn lemma_find_ch_is(s: Seq<char>, c: char, k: int)
    requires
        0 <= k < s.len(),
        s[k] == c,
        forall|j: int| 0 <= j < k ==> s[j] != c,
    ensures
        find_ch(s, c) == k,
{
    lemma_find_ch(s, c);
}

/// A line with its trailing carriage return, if any, removed.
pub open spec fn strip_cr(l: Seq<char>) -> Seq<char> {
    if l.len() > 0 && l[l.len() - 1] == '\r' {
        l.drop_last()
    } else {
        l
    }
}

/// A line the loader accepts: blank, or holding a delimiter.
pub open spec fn good_line(l: Seq<char>) -> bool {
    l.len() == 0 || find_ch(l, '|') >= 0
}

/// The two columns of a non-blank row: the text before the first delimiter,
/// and the text between the first delimiter and the second one or the end.
pub open spec fn row_of(l: Seq<char>) -> (Seq<char>, Seq<char>) {
    let p = find_ch(l, '|');
    let rest = l.skip(p + 1);
    let q = find_ch(rest, '|');
    (l.take(p), if q < 0 {
        rest
    } else {
        rest.take(q)
    })
}

#[via_fn]
proof fn rows_of_dec(t: Seq<char>) {
    lemma_find_ch(t, '\n');
}

/// All rows of one source text, in file order: lines split on newlines,
/// stripped of a trailing carriage return, blank lines skipped.
pub open spec fn rows_of(t: Seq<char>) -> Seq<(Seq<char>, Seq<char>)>
    decreases t.len(),
    via rows_of_dec
{
    let j = find_ch(t, '\n');
    let line = strip_cr(
        if j < 0 {
            t
        } else {
            t.take(j)
        },
    );
    let head: Seq<(Seq<char>, Seq<char>)> = if line.len() == 0 {
        Seq::empty()
    } else {
        seq![row_of(line)]
    };
    if j < 0 {
        head
    } else {
        head + rows_of(t.skip(j + 1))
    }
}

#[via_fn]
proof fn file_ok_dec(t: Seq<char>) {
    lemma_find_ch(t, '\n');
}

/// Whether every non-blank line of the text holds a delimiter.
pub open spec fn file_ok(t: Seq<char>) -> bool
    decreases t.len(),
    via file_ok_dec
{
    let j = find_ch(t, '\n');
    let line = strip_cr(
        if j < 0 {
            t
        } else {
            t.take(j)
        },
    );
    if j < 0 {
        good_line(line)
    } else {
        good_line(line) && file_ok(t.skip(j + 1))
    }
}

/// Index of the last '.' in a file name, or -1 when absent.
pub open spec fn rfind_dot(n: Seq<char>) -> int
    decreases n.len(),
{
    if n.len() == 0 {
        -1
    } else if n[n.len() - 1] == '.' {
        n.len() - 1
    } else {
        rfind_dot(n.drop_last())
    }
}

pub proof fn lemma_rfind_dot(n: Seq<char>)
    ensures
        -1 <= rfind_dot(n) < n.len(),
        rfind_dot(n) >= 0 ==> n[rfind_dot(n)] == '.',
        rfind_dot(n) >= 0 ==> forall|k: int| rfind_dot(n) < k < n.len() ==> n[k] != '.',
        rfind_dot(n) < 0 ==> forall|k: int| 0 <= k < n.len() ==> n[k] != '.',
    decreases n.len(),
{
    if n.len() == 0 {
    } else if n[n.len() - 1] == '.' {
    } else {
        let m = n.drop_last();
        lemma_rfind_dot(m);
        assert(forall|k: int| 0 <= k < m.len() ==> #[trigger] m[k] == n[k]);
        let r = rfind_dot(m);
        if r >= 0 {
            assert(n[r] == m[r]);
            assert forall|k: int| r < k < n.len() implies n[k] != '.' by {
                if k < n.len() - 1 {
                    assert(n[k] == m[k]);
                }
            }
        } else {
            assert forall|k: int| 0 <= k < n.len() implies n[k] != '.' by {
                if k < n.len() - 1 {
                    assert(n[k] == m[k]);
                }
            }
        }
    }
}

/// A file name without its extension: everything before the last '.', or the
/// whole name when it has none.
pub open spec fn strip_ext(n: Seq<char>) -> Seq<char> {
    if rfind_dot(n) < 0 {
        n
    } else {
        n.take(rfind_dot(n))
    }
}

/// The records one source file contributes: one per row, tagged with the
/// list identity derived from the file name and with 1-based positions.
pub open spec fn file_records(f: FileModel) -> Seq<ItemModel> {
    let base = strip_ext(f.name);
    let rows = rows_of(f.text);
    Seq::new(
        rows.len(),
        |i: int|
            ItemModel {
                composer_name: rows[i].0,
                composer_slug: slug_of(rows[i].0),
                work: rows[i].1,
                list_name: base,
                list_slug: slug_of(base),
                position: i + 1,
            },
    )
}

/// The full record set: each file's records, in file order.
pub open spec fn records_of(fs: Seq<FileModel>) -> Seq<ItemModel>
    decreases fs.len(),
{
    if fs.len() == 0 {
        Seq::empty()
    } else {
        records_of(fs.drop_last()) + file_records(fs.last())
    }
}

/// Whether every source file parses in full.
pub open spec fn all_ok(fs: Seq<FileModel>) -> bool {
    forall|i: int| 0 <= i < fs.len() ==> file_ok(#[trigger] fs[i].text)
}

/// An upper bound on how many records the sources can yield: every row
/// takes at least one character, plus one for a file without a final
/// newline.
pub open spec fn size_bound(fs: Seq<FileModel>) -> int
    decreases fs.len(),
{
    if fs.len() == 0 {
        0
    } else {
        size_bound(fs.drop_last()) + fs.last().text.len() + 1
    }
}

proof fn lemma_rows_len(t: Seq<char>)
    ensures
        0 <= rows_of(t).len() <= t.len() + 1,
    decreases t.len(),
{
    lemma_find_ch(t, '\n');
    let j = find_ch(t, '\n');
    if j >= 0 {
        lemma_rows_len(t.skip(j + 1));
    }
}

/// The loaded record set is no longer than the size bound of its sources.
pub proof fn lemma_records_len(fs: Seq<FileModel>)
    ensures
        0 <= records_of(fs).len() <= size_bound(fs),
    decreases fs.len(),
{
    if fs.len() > 0 {
        lemma_records_len(fs.drop_last());
        lemma_rows_len(fs.last().text);
    }
}

/// Every loaded record has a positive position.
pub proof fn lemma_records_positions(fs: Seq<FileModel>)
    ensures
        forall|i: int| 0 <= i < records_of(fs).len() ==> (#[trigger] records_of(fs)[i]).position
            >= 1,
    decreases fs.len(),
{
    if fs.len() > 0 {
        lemma_records_positions(fs.drop_last());
        assert forall|i: int| 0 <= i < records_of(fs).len() implies (
        #[trigger] records_of(fs)[i]).position >= 1 by {
            let prev = records_of(fs.drop_last());
            if i < prev.len() {
                assert(records_of(fs)[i] == prev[i]);
            } else {
                assert(records_of(fs)[i] == file_records(fs.last())[i - prev.len()]);
            }
        }
    }
}

/// The predicate "this record belongs to the list with slug s".
pub open spec fn by_slug(s: Seq<char>) -> spec_fn(ItemModel) -> bool {
    |it: ItemModel| it.list_slug == s
}

/// The rank positions of the records carrying the given list slug, in
/// record order.
pub open spec fn list_positions(recs: Seq<ItemModel>, s: Seq<char>) -> Seq<int> {
    recs.filter(by_slug(s)).map_values(|it: ItemModel| it.position)
}

proof fn lemma_filter_items_all_true(recs: Seq<ItemModel>, pred: spec_fn(ItemModel) -> bool)
    requires
        forall|k: int| 0 <= k < recs.len() ==> pred(#[trigger] recs[k]),
    ensures
        recs.filter(pred) == recs,
    decreases recs.len(),
{
    reveal(Seq::filter);
    if recs.len() == 0 {
        assert(recs.filter(pred) =~= recs);
    } else {
        assert(forall|k: int|
            0 <= k < recs.drop_last().len() ==> #[trigger] recs.drop_last()[k] == recs[k]);
        lemma_filter_items_all_true(recs.drop_last(), pred);
        assert(recs.last() == recs[recs.len() - 1]);
        assert(recs.drop_last().push(recs.last()) =~= recs);
    }
}

proof fn lemma_filter_items_all_false(recs: Seq<ItemModel>, pred: spec_fn(ItemModel) -> bool)
    requires
        forall|k: int| 0 <= k < recs.len() ==> !pred(#[trigger] recs[k]),
    ensures
        recs.filter(pred) == Seq::<ItemModel>::empty(),
    decreases recs.len(),
{
    reveal(Seq::filter);
    if recs.len() == 0 {
        assert(recs.filter(pred) =~= Seq::<ItemModel>::empty());
    } else {
        assert(forall|k: int|
            0 <= k < recs.drop_last().len() ==> #[trigger] recs.drop_last()[k] == recs[k]);
        lemma_filter_items_all_false(recs.drop_last(), pred);
        assert(recs.last() == recs[recs.len() - 1]);
    }
}

proof fn lemma_records_slug_member(fs: Seq<FileModel>)
    ensures
        forall|i: int|
            0 <= i < records_of(fs).len() ==> exists|k: int|
                0 <= k < fs.len() && (#[trigger] records_of(fs)[i]).list_slug == slug_of(
                    strip_ext(fs[k].name),
                ),
    decreases fs.len(),
{
    if fs.len() > 0 {
        lemma_records_slug_member(fs.drop_last());
        let prev = records_of(fs.drop_last());
        assert forall|i: int| 0 <= i < records_of(fs).len() implies exists|k: int|
            0 <= k < fs.len() && (#[trigger] records_of(fs)[i]).list_slug == slug_of(
                strip_ext(fs[k].name),
            ) by {
            if i < prev.len() {
                assert(records_of(fs)[i] == prev[i]);
                let k = choose|k: int|
                    0 <= k < fs.drop_last().len() && #[trigger] prev[i].list_slug == slug_of(
                        strip_ext(fs.drop_last()[k].name),
                    );
                assert(fs.drop_last()[k] == fs[k]);
            } else {
                assert(records_of(fs)[i] == file_records(fs.last())[i - prev.len()]);
                assert(fs[fs.len() - 1] == fs.last());
            }
        }
    }
}

/// Within one list the rank positions are exactly 1, 2, ..., N in record
/// order, N being that list's record count, provided each source file names
/// a distinct list.
pub proof fn lemma_positions_contiguous(fs: Seq<FileModel>, s: Seq<char>)
    requires
        forall|a: int, b: int|
            0 <= a < b < fs.len() ==> slug_of(strip_ext((#[trigger] fs[a]).name)) != slug_of(
                strip_ext((#[trigger] fs[b]).name),
            ),
    ensures
        forall|i: int|
            0 <= i < list_positions(records_of(fs), s).len() ==> #[trigger] list_positions(
                records_of(fs),
                s,
            )[i] == i + 1,
    decreases fs.len(),
{
    if fs.len() == 0 {
        lemma_filter_items_all_false(records_of(fs), by_slug(s));
    } else {
        let prev = records_of(fs.drop_last());
        let blk = file_records(fs.last());
        assert(records_of(fs) == prev + blk);
        Seq::filter_distributes_over_add(prev, blk, by_slug(s));
        lemma_records_slug_member(fs.drop_last());
        assert(forall|k: int| 0 <= k < fs.drop_last().len() ==> #[trigger] fs.drop_last()[k]
            == fs[k]);
        if slug_of(strip_ext(fs.last().name)) == s {
            // every record of the last file matches; none of the earlier ones do
            assert forall|k: int| 0 <= k < prev.len() implies !by_slug(s)(#[trigger] prev[k]) by {
                let w = choose|w: int|
                    0 <= w < fs.drop_last().len() && #[trigger] prev[k].list_slug == slug_of(
                        strip_ext(fs.drop_last()[w].name),
                    );
                assert(fs[w] == fs.drop_last()[w]);
                assert(slug_of(strip_ext(fs[w].name)) != slug_of(strip_ext(fs[fs.len() - 1].name)));
            }
            lemma_filter_items_all_false(prev, by_slug(s));
            assert(forall|k: int| 0 <= k < blk.len() ==> by_slug(s)(#[trigger] blk[k]));
            lemma_filter_items_all_true(blk, by_slug(s));
            assert(records_of(fs).filter(by_slug(s)) =~= blk);
            assert(forall|i: int| 0 <= i < blk.len() ==> (#[trigger] blk[i]).position == i + 1);
            assert forall|i: int| 0 <= i < list_positions(records_of(fs), s).len() implies
                #[trigger] list_positions(records_of(fs), s)[i] == i + 1 by {
                assert(list_positions(records_of(fs), s)[i] == blk[i].position);
            }
        } else {
            // no record of the last file matches
            assert(fs[fs.len() - 1] == fs.last());
            assert forall|k: int| 0 <= k < blk.len() implies !by_slug(s)(#[trigger] blk[k]) by {
                assert(blk[k].list_slug == slug_of(strip_ext(fs.last().name)));
            }
            lemma_filter_items_all_false(blk, by_slug(s));
            assert(records_of(fs).filter(by_slug(s)) =~= prev.filter(by_slug(s)));
            lemma_positions_contiguous(fs.drop_last(), s);
            assert(list_positions(records_of(fs), s) == list_positions(prev, s));
            assert forall|i: int| 0 <= i < list_positions(records_of(fs), s).len() implies
                #[trigger] list_positions(records_of(fs), s)[i] == i + 1 by {
                assert(list_positions(prev, s)[i] == i + 1);
            }
        }
    }
}

proof fn lemma_find_ch_absent(t: Seq<char>, c: char)
    requires
        forall|k: int| 0 <= k < t.len() ==> t[k] != c,
    ensures
        find_ch(t, c) < 0,
{
    lemma_find_ch(t, c);
}

fn find_from(s: &str, from: usize, c: char) -> (r: Option<usize>)
    requires
        from <= s@.len(),
    ensures
        r matches Some(j) ==> from <= j && (j as int) < s@.len() && s@[j as int] == c && (forall|
            k: int,
        |
            from <= k < j ==> s@[k] != c),
        r is None ==> forall|k: int| from <= k < s@.len() ==> s@[k] != c,
{
    let n = s.unicode_len();
    let mut j = from;
    while j < n
        invariant
            from <= j <= n,
            n == s@.len(),
            forall|k: int| from <= k < j ==> s@[k] != c,
        decreases n - j,
    {
        if s.get_char(j) == c {
            return Some(j);
        }
        j = j + 1;
    }
    None
}

fn strip_ext_exec(name: &String) -> (r: String)
    ensures
        r@ == strip_ext(name@),
{
    let s = name.as_str();
    let n = s.unicode_len();
    let mut k = n;
    while k > 0
        invariant
            k <= n,
            n == s@.len(),
            s@ == name@,
            forall|j: int| k <= j < n ==> s@[j] != '.',
        decreases k,
    {
        if s.get_char(k - 1) == '.' {
            proof {
                lemma_rfind_dot(name@);
                assert(rfind_dot(name@) == k - 1);
            }
            return s.substring_char(0, k - 1).to_owned();
        }
        k = k - 1;
    }
    proof {
        lemma_rfind_dot(name@);
    }
    name.clone()
}

#[verifier::loop_isolation(false)]
#[verifier::rlimit(60)]
fn parse_rows(s: &str, i: usize) -> (r: Result<Vec<(String, String)>, LoadError>)
    requires
        i <= s@.len(),
    ensures
        r is Ok <==> file_ok(s@.skip(i as int)),
        r matches Ok(v) ==> v.deep_view() =~= rows_of(s@.skip(i as int)),
    decreases s@.len() - i,
{
    let n = s.unicode_len();
    let ghost t = s@.skip(i as int);
    proof {
        assert(forall|k: int| 0 <= k < t.len() ==> #[trigger] t[k] == s@[i + k]);
    }
    let j_opt = find_from(s, i, '\n');
    let line_end: usize;
    let has_nl: bool;
    match j_opt {
        Some(j) => {
            proof {
                lemma_find_ch_is(t, '\n', j as int - i as int);
            }
            line_end = j;
            has_nl = true;
        },
        None => {
            proof {
                lemma_find_ch_absent(t, '\n');
            }
            line_end = n;
            has_nl = false;
        },
    }
    let ghost jj = find_ch(t, '\n');
    let ghost line_raw = if jj < 0 {
        t
    } else {
        t.take(jj)
    };
    proof {
        assert(line_raw =~= s@.subrange(i as int, line_end as int));
    }
    let mut e = line_end;
    if e > i && s.get_char(e - 1) == '\r' {
        e = e - 1;
    }
    let ghost line = strip_cr(line_raw);
    proof {
        assert(line =~= s@.subrange(i as int, e as int));
    }
    if e == i {
        // blank line: contributes nothing
        if has_nl {
            proof {
                assert(t.skip(jj + 1) =~= s@.skip(line_end + 1));
            }
            let rest = parse_rows(s, line_end + 1)?;
            return Ok(rest);
        } else {
            return Ok(Vec::new());
        }
    }
    let line_str = s.substring_char(i, e);
    assert(line_str@ == line);
    let p_opt = find_from(line_str, 0, '|');
    let p: usize;
    match p_opt {
        Some(pp) => {
            proof {
                lemma_find_ch_is(line, '|', pp as int);
            }
            p = pp;
        },
        None => {
            proof {
                lemma_find_ch_absent(line, '|');
            }
            return Err(LoadError::MissingColumn);
        },
    }
    let composer = line_str.substring_char(0, p).to_owned();
    let q_opt = find_from(line_str, p + 1, '|');
    let ghost rest2 = line.skip(p + 1);
    proof {
        assert(forall|k: int| 0 <= k < rest2.len() ==> #[trigger] rest2[k] == line[p + 1 + k]);
    }
    let end2: usize;
    match q_opt {
        Some(q) => {
            proof {
                lemma_find_ch_is(rest2, '|', q as int - (p as int + 1));
            }
            end2 = q;
        },
        None => {
            proof {
                lemma_find_ch_absent(rest2, '|');
            }
            end2 = line_str.unicode_len();
        },
    }
    let work = line_str.substring_char(p + 1, end2).to_owned();
    proof {
        assert(composer@ =~= row_of(line).0);
        assert(work@ =~= row_of(line).1);
    }
    let mut out: Vec<(String, String)> = Vec::new();
    out.push((composer, work));
    if has_nl {
        proof {
            assert(t.skip(jj + 1) =~= s@.skip(line_end + 1));
        }
        let mut rest = parse_rows(s, line_end + 1)?;
        out.append(&mut rest);
    }
    assert(out.deep_view() =~= rows_of(t));
    Ok(out)
}

/// Load the flat record set from the given ranking sources: one list per
/// file, one record per non-blank row, positions assigned 1-based in file
/// order. Fails if and only if some non-blank row has no delimiter.
#[verifier::loop_isolation(false)]
pub fn top_list_from_csv(files: &Vec<SourceFile>) -> (r: Result<Vec<TopListItem>, LoadError>)
    ensures
        r is Ok <==> all_ok(files.deep_view()),
        r matches Ok(v) ==> v.deep_view() =~= records_of(files.deep_view()),
{
    let ghost fm = files.deep_view();
    let mut out: Vec<TopListItem> = Vec::new();
    let mut i: usize = 0;
    while i < files.len()
        invariant
            i <= files.len(),
            forall|k: int| 0 <= k < i ==> file_ok(#[trigger] fm[k].text),
            out.deep_view() =~= records_of(fm.take(i as int)),
        decreases files.len() - i,
    {
        proof {
            assert(fm[i as int] == files@[i as int]@);
        }
        let f = &files[i];
        let base = strip_ext_exec(&f.name);
        let base_slug = name_to_slug(base.clone());
        proof {
            assert(f.text@.skip(0) =~= f.text@);
        }
        match parse_rows(f.text.as_str(), 0) {
            Err(e) => {
                proof {
                    assert(!file_ok(fm[i as int].text));
                }
                return Err(e);
            },
            Ok(rows) => {
                let ghost rws = rows_of(fm[i as int].text);
                proof {
                    assert(rows.deep_view() =~= rws);
                }
                let mut k: usize = 0;
                while k < rows.len()
                    invariant
                        k <= rows.len(),
                        rows.deep_view() =~= rws,
                        out.deep_view() =~= records_of(fm.take(i as int)) + file_records(
                            fm[i as int],
                        ).take(k as int),
                    decreases rows.len() - k,
                {
                    let row = &rows[k];
                    let item = TopListItem {
                        composer_name: row.0.clone(),
                        composer_slug: name_to_slug(row.0.clone()),
                        work: row.1.clone(),
                        list_name: base.clone(),
                        list_slug: base_slug.clone(),
                        position: k + 1,
                    };
                    proof {
                        assert(rows.deep_view()[k as int] == (row.0@, row.1@));
                        assert(item@ =~= file_records(fm[i as int])[k as int]);
                        assert(file_records(fm[i as int]).take(k as int).push(item@)
                            =~= file_records(fm[i as int]).take(k + 1));
                    }
                    let ghost pre = out.deep_view();
                    out.push(item);
                    proof {
                        assert(out.deep_view() =~= pre.push(item@));
                        assert(pre.push(item@) =~= records_of(fm.take(i as int)) + file_records(
                            fm[i as int],
                        ).take(k + 1));
                    }
                    k = k + 1;
                }
                proof {
                    assert(file_records(fm[i as int]).take(rows@.len() as int) =~= file_records(
                        fm[i as int],
                    ));
                    assert(fm.take(i + 1).drop_last() =~= fm.take(i as int));
                    assert(fm.take(i + 1).last() == fm[i as int]);
                    assert(records_of(fm.take(i + 1)) =~= records_of(fm.take(i as int))
                        + file_records(fm[i as int]));
                }
            },
        }
        i = i + 1;
    }
    proof {
        assert(fm.take(fm.len() as int) =~= fm);
    }
    Ok(out)
}

} // verus!
