//! The reverse index from dependency identifier to providing package: how rows are
//! read from the two repository formats, how the index is kept and looked up.
use vstd::prelude::*;
use crate::text::{
    after_last, after_last_index, back_space_from, back_word_from, chars_of, copy_range,
    first_index, first_index_from, first_word, has_infix, has_infix_exec, has_suffix,
    has_suffix_exec, has_two_words, last_word, lemma_back_bounds, lemma_first_index_bounds,
    lemma_skip_space_bounds, lemma_skip_word_bounds, skip_space_from, skip_word_from, string_of,
};

verus! {

/// One index row: a `.pc` basename and the package that ships it.
pub type Row = (Seq<char>, Seq<char>);

/// The mapping that a sequence of rows builds when each later row overwrites earlier
/// rows with the same key.
pub open spec fn map_of(rows: Seq<Row>) -> Map<Seq<char>, Seq<char>>
    decreases rows.len(),
{
    if rows.len() == 0 {
        Map::empty()
    } else {
        map_of(rows.drop_last()).insert(rows.last().0, rows.last().1)
    }
}

/// The rows of a sequence of string pairs, as characters.
pub open spec fn rows_of(v: Seq<(String, String)>) -> Seq<Row> {
    v.map_values(|p: (String, String)| (p.0@, p.1@))
}

/// The row whose key is `k` and after which no row has key `k` gives the value of `k`.
pub proof fn lemma_map_of_latest(rows: Seq<Row>, k: Seq<char>, j: int)
    requires
        0 <= j < rows.len(),
        rows[j].0 == k,
        forall|m: int| j < m < rows.len() ==> rows[m].0 != k,
    ensures
        map_of(rows).contains_key(k),
        map_of(rows)[k] == rows[j].1,
    decreases rows.len(),
{
    if j < rows.len() - 1 {
        lemma_map_of_latest(rows.drop_last(), k, j);
    }
}

/// A key that no row has is absent from the mapping.
pub proof fn lemma_map_of_absent(rows: Seq<Row>, k: Seq<char>)
    requires
        forall|m: int| 0 <= m < rows.len() ==> rows[m].0 != k,
    ensures
        !map_of(rows).contains_key(k),
    decreases rows.len(),
{
    if rows.len() > 0 {
        lemma_map_of_absent(rows.drop_last(), k);
    }
}

/// The segment of a path that marks a pkg-config directory.
pub open spec fn pkgconfig_segment() -> Seq<char> {
    seq!['/', 'p', 'k', 'g', 'c', 'o', 'n', 'f', 'i', 'g', '/']
}

/// The extension of a pkg-config file, with its dot.
pub open spec fn pc_extension() -> Seq<char> {
    seq!['.', 'p', 'c']
}

/// A file name without its `.pc` extension (a name that is only the extension stays whole).
pub open spec fn pc_stem(name: Seq<char>) -> Seq<char> {
    if name.len() > 3 {
        name.subrange(0, name.len() - 3)
    } else {
        name
    }
}

/// The row that a line of a column file listing contributes: the first column is a
/// path under a `/pkgconfig/` directory ending in `.pc`, the last column lists the
/// owners separated by commas; the last owner, without its section, provides the
/// basename of the path.
pub open spec fn contents_row(line: Seq<char>) -> Option<Row> {
    let path = first_word(line);
    if has_two_words(line) && has_infix(path, pkgconfig_segment()) && has_suffix(
        path,
        pc_extension(),
    ) {
        let owner = after_last(after_last(last_word(line), ','), '/');
        Some((pc_stem(after_last(path, '/')), owner))
    } else {
        None
    }
}

/// The first component of a path: what precedes its first `/`.
pub open spec fn first_component(path: Seq<char>) -> Seq<char> {
    path.subrange(0, first_index_from(path, '/', 0))
}

/// The row that an entry of a file-list archive contributes: an entry whose file
/// name has the extension `.pc` maps its stem to the entry's first path component.
pub open spec fn archive_row(path: Seq<char>) -> Option<Row> {
    let name = after_last(path, '/');
    if name.len() > 3 && has_suffix(name, pc_extension()) {
        Some((pc_stem(name), first_component(path)))
    } else {
        None
    }
}

/// The mapping with an optional row added.
pub open spec fn add_to(m: Map<Seq<char>, Seq<char>>, r: Option<Row>) -> Map<Seq<char>, Seq<char>> {
    match r {
        Some(x) => m.insert(x.0, x.1),
        None => m,
    }
}

/// The rows of an optional row.
pub open spec fn row_seq(r: Option<Row>) -> Seq<Row> {
    match r {
        Some(x) => seq![x],
        None => seq![],
    }
}

/// Appending an optional row adds it to the mapping.
pub proof fn lemma_map_of_append(rows: Seq<Row>, r: Option<Row>)
    ensures
        map_of(rows + row_seq(r)) == add_to(map_of(rows), r),
{
    match r {
        Some(x) => {
            assert((rows + seq![x]).drop_last() =~= rows);
        },
        None => {
            assert(rows + Seq::<Row>::empty() =~= rows);
        },
    }
}

/// No two rows have the same key.
pub open spec fn unique_keys(rows: Seq<Row>) -> bool {
    forall|i: int, j: int| 0 <= i < j < rows.len() ==> rows[i].0 != rows[j].0
}

/// With keys that do not repeat, the mapping holds exactly the rows.
pub proof fn lemma_map_of_unique(rows: Seq<Row>)
    requires
        unique_keys(rows),
    ensures
        forall|j: int| #![trigger rows[j]]
            0 <= j < rows.len() ==> map_of(rows).contains_key(rows[j].0) && map_of(rows)[rows[j].0]
                == rows[j].1,
        forall|k: Seq<char>| #[trigger]
            map_of(rows).contains_key(k) ==> exists|j: int| 0 <= j < rows.len() && rows[j].0 == k,
{
    assert forall|j: int| #![trigger rows[j]] 0 <= j < rows.len() implies map_of(rows).contains_key(
        rows[j].0,
    ) && map_of(rows)[rows[j].0] == rows[j].1 by {
        lemma_map_of_latest(rows, rows[j].0, j);
    }
    assert forall|k: Seq<char>| #[trigger] map_of(rows).contains_key(k) implies exists|j: int|
        0 <= j < rows.len() && rows[j].0 == k by {
        if forall|m: int| 0 <= m < rows.len() ==> rows[m].0 != k {
            lemma_map_of_absent(rows, k);
        }
    }
}

/// Replacing the row of key `k` in rows with unique keys maps `k` anew.
pub proof fn lemma_map_of_replace(rows: Seq<Row>, j: int, v: Seq<char>)
    requires
        unique_keys(rows),
        0 <= j < rows.len(),
    ensures
        unique_keys(rows.update(j, (rows[j].0, v))),
        map_of(rows.update(j, (rows[j].0, v))) == map_of(rows).insert(rows[j].0, v),
{
    let k = rows[j].0;
    let nr = rows.update(j, (k, v));
    assert(unique_keys(nr)) by {
        assert forall|a: int, b: int| 0 <= a < b < nr.len() implies nr[a].0 != nr[b].0 by {
            assert(nr[a].0 == rows[a].0 && nr[b].0 == rows[b].0);
        }
    }
    lemma_map_of_unique(rows);
    lemma_map_of_unique(nr);
    let m = map_of(rows).insert(k, v);
    assert forall|x: Seq<char>| #[trigger] map_of(nr).contains_key(x) <==> m.contains_key(x) by {
        if map_of(nr).contains_key(x) {
            let i = choose|i: int| 0 <= i < nr.len() && nr[i].0 == x;
            assert(nr[i].0 == rows[i].0);
        }
        if map_of(rows).contains_key(x) {
            let i = choose|i: int| 0 <= i < rows.len() && rows[i].0 == x;
            assert(nr[i].0 == rows[i].0);
        }
        if x == k {
            assert(nr[j].0 == k);
        }
    }
    assert forall|x: Seq<char>| #[trigger] map_of(nr).contains_key(x) implies map_of(nr)[x] == m[x] by {
        let i = choose|i: int| 0 <= i < nr.len() && nr[i].0 == x;
        assert(nr[i].0 == x);
        if i != j {
            assert(nr[i] == rows[i]);
        }
    }
    assert(map_of(nr) =~= m);
}

/// Reverse index from `.pc` basename to providing package: one row per basename, a
/// later insertion for a basename replacing its package.
pub struct ReverseIndex {
    entries: Vec<(String, String)>,
}

impl View for ReverseIndex {
    type V = Map<Seq<char>, Seq<char>>;

    open spec fn view(&self) -> Map<Seq<char>, Seq<char>> {
        map_of(self.rows())
    }
}

impl ReverseIndex {
    /// The rows, in the order their keys were first added.
    pub closed spec fn rows(&self) -> Seq<Row> {
        rows_of(self.entries@)
    }

    /// No basename has two rows.
    pub open spec fn wf(&self) -> bool {
        unique_keys(self.rows())
    }

    /// Each row of a well-formed index is an entry of its mapping, and each entry a row.
    pub proof fn lemma_rows_are_entries(&self)
        requires
            self.wf(),
        ensures
            forall|j: int| #![trigger self.rows()[j]]
                0 <= j < self.rows().len() ==> self@.contains_key(self.rows()[j].0)
                    && self@[self.rows()[j].0] == self.rows()[j].1,
            forall|k: Seq<char>| #[trigger]
                self@.contains_key(k) ==> exists|j: int|
                    0 <= j < self.rows().len() && self.rows()[j].0 == k,
    {
        lemma_map_of_unique(self.rows());
    }

    /// An empty index.
    pub fn new() -> (r: ReverseIndex)
        ensures
            r.wf(),
            r.rows() == Seq::<Row>::empty(),
            r@ == Map::<Seq<char>, Seq<char>>::empty(),
    {
        let r = ReverseIndex { entries: Vec::new() };
        assert(r.rows() =~= Seq::<Row>::empty());
        r
    }

    /// Number of rows, that is of basenames.
    pub fn len(&self) -> (n: usize)
        ensures
            n == self.rows().len(),
    {
        self.entries.len()
    }

    /// The row at position `i`.
    pub fn row(&self, i: usize) -> (r: (String, String))
        requires
            i < self.rows().len(),
        ensures
            (r.0@, r.1@) == self.rows()[i as int],
    {
        let (k, v) = &self.entries[i];
        (k.clone(), v.clone())
    }

    /// Position of the row of `key`, if there is one.
    fn find(&self, key: &String) -> (r: Option<usize>)
        ensures
            match r {
                Some(j) => j < self.rows().len() && self.rows()[j as int].0 == key@,
                None => forall|m: int| 0 <= m < self.rows().len() ==> self.rows()[m].0 != key@,
            },
    {
        let mut i: usize = self.entries.len();
        while i > 0
            invariant
                i <= self.entries.len(),
                self.rows() == rows_of(self.entries@),
                forall|m: int| i <= m < self.rows().len() ==> self.rows()[m].0 != key@,
            decreases i,
        {
            if self.entries[i - 1].0 == *key {
                return Some(i - 1);
            }
            i -= 1;
        }
        None
    }

    /// Maps `key` to `value`, replacing what `key` mapped to before.
    pub fn insert(&mut self, key: String, value: String)
        requires
            old(self).wf(),
        ensures
            final(self).wf(),
            final(self)@ == old(self)@.insert(key@, value@),
    {
        match self.find(&key) {
            Some(j) => {
                proof {
                    lemma_map_of_replace(self.rows(), j as int, value@);
                }
                self.entries.set(j, (key, value));
                assert(self.rows() =~= old(self).rows().update(j as int, (old(self).rows()[j as int].0, value@)));
            },
            None => {
                self.entries.push((key, value));
                assert(self.rows() =~= old(self).rows().push((key@, value@)));
                assert(self.rows().drop_last() =~= old(self).rows());
            },
        }
    }

    /// Adds an optional row.
    pub(crate) fn add_row(&mut self, row: Option<(String, String)>)
        requires
            old(self).wf(),
        ensures
            final(self).wf(),
            final(self)@ == add_to(old(self)@, match row {
                Some(p) => Some((p.0@, p.1@)),
                None => None,
            }),
    {
        match row {
            Some((k, v)) => {
                self.insert(k, v);
            },
            None => {},
        }
    }

    /// The package that `key` maps to, if any.
    pub fn get(&self, key: &String) -> (r: Option<String>)
        ensures
            r.is_some() == self@.contains_key(key@),
            r.is_some() ==> r.unwrap()@ == self@[key@],
    {
        let mut i: usize = self.entries.len();
        while i > 0
            invariant
                i <= self.entries.len(),
                self.rows() == rows_of(self.entries@),
                forall|m: int| i <= m < self.rows().len() ==> self.rows()[m].0 != key@,
            decreases i,
        {
            if self.entries[i - 1].0 == *key {
                proof {
                    lemma_map_of_latest(self.rows(), key@, i - 1);
                }
                return Some(self.entries[i - 1].1.clone());
            }
            i -= 1;
        }
        proof {
            lemma_map_of_absent(self.rows(), key@);
        }
        None
    }

    /// Adds the row that one line of a column file listing contributes, if any.
    pub fn add_contents_line(&mut self, line: &str)
        requires
            old(self).wf(),
        ensures
            final(self).wf(),
            final(self)@ == add_to(old(self)@, contents_row(line@)),
    {
        let r = contents_line_row(line);
        self.add_row(r);
    }

    /// Adds the row that one entry path of a file-list archive contributes, if any.
    pub fn add_archive_entry(&mut self, path: &str)
        requires
            old(self).wf(),
        ensures
            final(self).wf(),
            final(self)@ == add_to(old(self)@, archive_row(path@)),
    {
        let r = archive_entry_row(path);
        self.add_row(r);
    }
}

/// The stem of the file name `s[a..s.len()]` as `pc_stem` gives it.
fn stem_exec(s: &Vec<char>, a: usize) -> (r: Vec<char>)
    requires
        a <= s.len(),
    ensures
        r@ == pc_stem(s@.subrange(a as int, s.len() as int)),
{
    let n = s.len() - a;
    if n > 3 {
        let r = copy_range(s, a, s.len() - 3);
        assert(r@ =~= pc_stem(s@.subrange(a as int, s.len() as int)));
        r
    } else {
        copy_range(s, a, s.len())
    }
}

/// The row that one line of a column file listing contributes.
pub fn contents_line_row(line: &str) -> (r: Option<(String, String)>)
    ensures
        match r {
            Some(p) => contents_row(line@) == Some((p.0@, p.1@)),
            None => contents_row(line@).is_none(),
        },
{
    let s = chars_of(line);
    let a = skip_space_from(&s, 0);
    proof {
        lemma_skip_space_bounds(s@, 0);
    }
    let e = skip_word_from(&s, a);
    proof {
        lemma_skip_word_bounds(s@, a as int);
    }
    let b = skip_space_from(&s, e);
    if b >= s.len() {
        return None;
    }
    let path = copy_range(&s, a, e);
    let seg = vec!['/', 'p', 'k', 'g', 'c', 'o', 'n', 'f', 'i', 'g', '/'];
    let ext = vec!['.', 'p', 'c'];
    assert(seg@ =~= pkgconfig_segment());
    assert(ext@ =~= pc_extension());
    if !has_infix_exec(&path, &seg) || !has_suffix_exec(&path, &ext) {
        return None;
    }
    let le = back_space_from(&s, s.len());
    proof {
        lemma_back_bounds(s@, s.len() as int);
    }
    let lb = back_word_from(&s, le);
    proof {
        lemma_back_bounds(s@, le as int);
    }
    let owners = copy_range(&s, lb, le);
    let c = after_last_index(&owners, ',', owners.len());
    let owner = copy_range(&owners, c, owners.len());
    let d = after_last_index(&owner, '/', owner.len());
    let pkg = copy_range(&owner, d, owner.len());
    let n = after_last_index(&path, '/', path.len());
    let stem = stem_exec(&path, n);
    Some((string_of(&stem), string_of(&pkg)))
}

/// The row that one entry path of a file-list archive contributes.
pub fn archive_entry_row(path: &str) -> (r: Option<(String, String)>)
    ensures
        match r {
            Some(p) => archive_row(path@) == Some((p.0@, p.1@)),
            None => archive_row(path@).is_none(),
        },
{
    let s = chars_of(path);
    let n = after_last_index(&s, '/', s.len());
    let name = copy_range(&s, n, s.len());
    let ext = vec!['.', 'p', 'c'];
    assert(ext@ =~= pc_extension());
    if name.len() <= 3 || !has_suffix_exec(&name, &ext) {
        return None;
    }
    let stem = stem_exec(&s, n);
    let f = first_index(&s, '/', 0);
    proof {
        lemma_first_index_bounds(s@, '/', 0);
    }
    let pkg = copy_range(&s, 0, f);
    Some((string_of(&stem), string_of(&pkg)))
}

} // verus!
