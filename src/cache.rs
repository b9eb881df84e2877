//! The cache file of a reverse index: one `"<basename> <package>\n"` line per row.
use vstd::prelude::*;
use crate::index::{lemma_map_of_append, map_of, row_seq, ReverseIndex, Row};
use crate::text::{
    chars_of, copy_range, first_index, first_index_from, last_line, last_line_start,
    lemma_first_index_bounds, lemma_last_index_bounds, lemma_last_line_start, string_of, strip_cr,
};

verus! {

/// The line that stores one row.
pub open spec fn row_line(r: Row) -> Seq<char> {
    r.0 + seq![' '] + r.1 + seq!['\n']
}

/// The cache text of a sequence of rows, one line per row, in order.
pub open spec fn cache_text(rows: Seq<Row>) -> Seq<char>
    decreases rows.len(),
{
    if rows.len() == 0 {
        Seq::empty()
    } else {
        cache_text(rows.drop_last()) + row_line(rows.last())
    }
}

/// A stored line split at its first space; a line without a space holds no row.
pub open spec fn split_row(l: Seq<char>) -> Option<Row> {
    let i = first_index_from(l, ' ', 0);
    if i < l.len() {
        Some((l.subrange(0, i), l.subrange(i + 1, l.len() as int)))
    } else {
        None
    }
}

/// The rows that cache text holds: lines split at newlines (a carriage return before
/// a newline dropped), each line split at its first space.
pub open spec fn cache_rows(t: Seq<char>) -> Seq<Row>
    decreases t.len(),
    via cache_rows_decreases
{
    if t.len() == 0 {
        Seq::empty()
    } else {
        cache_rows(t.subrange(0, last_line_start(t))) + row_seq(split_row(last_line(t)))
    }
}

#[via_fn]
proof fn cache_rows_decreases(t: Seq<char>) {
    if t.len() > 0 {
        if t.last() == '\n' {
            lemma_last_index_bounds(t.drop_last(), '\n', t.len() - 1);
        } else {
            lemma_last_index_bounds(t, '\n', t.len() - 1);
        }
    }
}

/// A row that its line stores faithfully: no space in the key, no line break in either.
pub open spec fn storable(r: Row) -> bool {
    &&& forall|k: int| 0 <= k < r.0.len() ==> r.0[k] != ' ' && r.0[k] != '\n' && r.0[k] != '\r'
    &&& forall|k: int| 0 <= k < r.1.len() ==> r.1[k] != '\n' && r.1[k] != '\r'
}

proof fn lemma_cache_text_ends(rows: Seq<Row>)
    ensures
        cache_text(rows).len() == 0 || cache_text(rows).last() == '\n',
{
}

/// When `u[i..]` is one line (newline-terminated or not) after a line break or at the
/// start, `cache_rows` of `u` adds that line's row to `cache_rows` of `u[..i]`.
proof fn lemma_cache_rows_last(u: Seq<char>, i: int)
    requires
        0 <= i < u.len(),
        i == 0 || u[i - 1] == '\n',
        forall|k: int| i <= k < u.len() - 1 ==> u[k] != '\n',
    ensures
        last_line_start(u) == i,
        cache_rows(u) == cache_rows(u.subrange(0, i)) + row_seq(split_row(last_line(u))),
{
    lemma_last_line_start(u, i);
}

/// Reading back the text of rows that can be stored gives the same rows.
pub proof fn lemma_cache_round_trip(rows: Seq<Row>)
    requires
        forall|j: int| 0 <= j < rows.len() ==> #[trigger] storable(rows[j]),
    ensures
        cache_rows(cache_text(rows)) == rows,
    decreases rows.len(),
{
    if rows.len() > 0 {
        let pre = rows.drop_last();
        let r = rows.last();
        assert(storable(rows[rows.len() - 1]));
        assert forall|j: int| 0 <= j < pre.len() implies #[trigger] storable(pre[j]) by {
            assert(storable(rows[j]));
        }
        lemma_cache_round_trip(pre);
        let c = cache_text(pre);
        let t = cache_text(rows);
        let line = r.0 + seq![' '] + r.1;
        assert(t == c + line + seq!['\n']);
        lemma_cache_text_ends(pre);
        let i = c.len() as int;
        assert forall|k: int| i <= k < t.len() - 1 implies t[k] != '\n' by {
            assert(t[k] == line[k - i]);
            if k - i < r.0.len() {
                assert(line[k - i] == r.0[k - i]);
            } else if k - i > r.0.len() {
                assert(line[k - i] == r.1[k - i - r.0.len() - 1]);
            }
        }
        if i > 0 {
            assert(t[i - 1] == c[i - 1]);
        }
        lemma_cache_rows_last(t, i);
        assert(t.subrange(0, i) =~= c);
        assert(t.subrange(i, t.len() - 1) =~= line);
        assert(strip_cr(line) == line) by {
            if r.1.len() > 0 {
                assert(line.last() == r.1[r.1.len() - 1]);
            }
        }
        assert forall|k: int| 0 <= k < r.0.len() implies line[k] != ' ' by {
            assert(line[k] == r.0[k]);
        }
        lemma_first_index_at(line, ' ', 0, r.0.len() as int);
        assert(line.subrange(0, r.0.len() as int) =~= r.0);
        assert(line.subrange(r.0.len() + 1int, line.len() as int) =~= r.1);
        assert(rows =~= pre + seq![r]);
    }
}

/// The first `c` at or after `i` is at `m` when `s[m]` is `c` and `s[i..m]` holds none.
pub proof fn lemma_first_index_at(s: Seq<char>, c: char, i: int, m: int)
    requires
        0 <= i <= m < s.len(),
        s[m] == c,
        forall|k: int| i <= k < m ==> s[k] != c,
    ensures
        first_index_from(s, c, i) == m,
    decreases m - i,
{
    if i < m {
        lemma_first_index_at(s, c, i + 1, m);
    }
}

/// An index whose entries can all be stored is read back from its cache text as the
/// same mapping, whatever entries it held before.
pub proof fn lemma_index_round_trip(idx: ReverseIndex)
    requires
        idx.wf(),
        forall|k: Seq<char>| #[trigger] idx@.contains_key(k) ==> storable((k, idx@[k])),
    ensures
        map_of(cache_rows(cache_text(idx.rows()))) == idx@,
{
    idx.lemma_rows_are_entries();
    let rows = idx.rows();
    assert forall|j: int| 0 <= j < rows.len() implies #[trigger] storable(rows[j]) by {
        assert(idx@.contains_key(rows[j].0));
        assert(rows[j] == (rows[j].0, idx@[rows[j].0]));
    }
    lemma_cache_round_trip(rows);
}

/// The row stored in `t[a..b]`, split at its first space.
fn split_row_exec(t: &Vec<char>, a: usize, b: usize) -> (r: Option<(String, String)>)
    requires
        a <= b <= t.len(),
    ensures
        match r {
            Some(p) => split_row(t@.subrange(a as int, b as int)) == Some((p.0@, p.1@)),
            None => split_row(t@.subrange(a as int, b as int)).is_none(),
        },
{
    let l = copy_range(t, a, b);
    let i = first_index(&l, ' ', 0);
    proof {
        lemma_first_index_bounds(l@, ' ', 0);
    }
    if i < l.len() {
        let k = copy_range(&l, 0, i);
        let v = copy_range(&l, i + 1, l.len());
        Some((string_of(&k), string_of(&v)))
    } else {
        None
    }
}

impl ReverseIndex {
    /// The cache text of this index: each row as `"<basename> <package>\n"`, in order.
    pub fn to_cache_text(&self) -> (r: String)
        ensures
            r@ == cache_text(self.rows()),
    {
        let mut out = String::new();
        let mut i: usize = 0;
        let n = self.len();
        while i < n
            invariant
                n == self.rows().len(),
                i <= n,
                out@ == cache_text(self.rows().subrange(0, i as int)),
            decreases n - i,
        {
            let (k, v) = self.row(i);
            out.append(k.as_str());
            out.append(" ");
            out.append(v.as_str());
            out.append("\n");
            proof {
                reveal_strlit(" ");
                reveal_strlit("\n");
                let s = self.rows().subrange(0, i + 1);
                assert(s.drop_last() =~= self.rows().subrange(0, i as int));
                assert(out@ =~= cache_text(s));
            }
            i += 1;
        }
        assert(self.rows().subrange(0, n as int) =~= self.rows());
        out
    }

    /// The index that cache text holds: the mapping its lines build, a later line for a
    /// basename replacing an earlier one.
    pub fn from_cache_text(text: &str) -> (r: ReverseIndex)
        ensures
            r.wf(),
            r@ == map_of(cache_rows(text@)),
    {
        let t = chars_of(text);
        let mut idx = ReverseIndex::new();
        let mut i: usize = 0;
        while i < t.len()
            invariant
                i <= t.len(),
                i == 0 || i == t.len() || t@[i - 1] == '\n',
                idx.wf(),
                idx@ == map_of(cache_rows(t@.subrange(0, i as int))),
            decreases t.len() - i,
        {
            let e = first_index(&t, '\n', i);
            proof {
                lemma_first_index_bounds(t@, '\n', i as int);
            }
            if e < t.len() {
                let mut end = e;
                if end > i && t[end - 1] == '\r' {
                    end = end - 1;
                }
                let r = split_row_exec(&t, i, end);
                proof {
                    let u = t@.subrange(0, e + 1);
                    if i > 0 {
                        assert(u[i - 1] == t@[i - 1]);
                    }
                    lemma_cache_rows_last(u, i as int);
                    assert(u.subrange(0, i as int) =~= t@.subrange(0, i as int));
                    assert(t@.subrange(i as int, end as int) =~= last_line(u));
                    lemma_map_of_append(cache_rows(u.subrange(0, i as int)), split_row(last_line(u)));
                }
                idx.add_row(r);
                i = e + 1;
            } else {
                let r = split_row_exec(&t, i, t.len());
                proof {
                    let u = t@.subrange(0, t.len() as int);
                    assert(u =~= t@);
                    if i > 0 {
                        assert(u[i - 1] == t@[i - 1]);
                    }
                    lemma_cache_rows_last(u, i as int);
                    assert(t@.subrange(i as int, t.len() as int) =~= last_line(u));
                    lemma_map_of_append(cache_rows(t@.subrange(0, i as int)), split_row(last_line(u)));
                }
                idx.add_row(r);
                i = t.len();
            }
        }
        assert(t@.subrange(0, t.len() as int) =~= t@);
        idx
    }
}

} // verus!
