//! Character-level helpers: the spec functions that describe tokens, separators and
//! affixes of a line, and the verified loops that compute them on `Vec<char>`.
use vstd::prelude::*;
use vstd::std_specs::iter::IteratorSpec;

verus! {

/// The characters of `s`, in order.
pub(crate) fn chars_of(s: &str) -> (r: Vec<char>)
    ensures
        r@ == s@,
{
    broadcast use vstd::string::axiom_spec_iter, vstd::string::next_postcondition;

    let mut it = s.chars();
    let mut r: Vec<char> = Vec::new();
    loop
        invariant
            it.obeys_prophetic_iter_laws(),
            it.decrease() is Some,
            r@ + it.remaining() == s@,
        ensures
            r@ == s@,
        decreases it.decrease()->0,
    {
        match it.next() {
            Some(c) => {
                r.push(c);
                assert(r@ + it.remaining() =~= s@);
            },
            None => {
                assert(r@ =~= s@);
                break;
            },
        }
    }
    r
}

/// Relies on collecting an iterator of `char` into a `String`: the same characters, in order.
#[verifier::external_body]
pub(crate) fn string_of(v: &Vec<char>) -> (r: String)
    ensures
        r@ == v@,
{
    v.iter().collect()
}

/// The characters that `char::is_whitespace` accepts (Unicode `White_Space`).
pub open spec fn is_space(c: char) -> bool {
    let u = c as u32;
    (0x09 <= u && u <= 0x0D) || u == 0x20 || u == 0x85 || u == 0xA0 || u == 0x1680 || (0x2000
        <= u && u <= 0x200A) || u == 0x2028 || u == 0x2029 || u == 0x202F || u == 0x205F || u
        == 0x3000
}

/// First index at or after `i` that holds no whitespace (the length if there is none).
pub open spec fn skip_space(s: Seq<char>, i: int) -> int
    decreases s.len() - i,
{
    if i >= s.len() {
        s.len() as int
    } else if is_space(s[i]) {
        skip_space(s, i + 1)
    } else {
        i
    }
}

/// First index at or after `i` that holds whitespace (the length if there is none).
pub open spec fn skip_word(s: Seq<char>, i: int) -> int
    decreases s.len() - i,
{
    if i >= s.len() {
        s.len() as int
    } else if !is_space(s[i]) {
        skip_word(s, i + 1)
    } else {
        i
    }
}

/// Moving back from `j`, the first index whose predecessor is no whitespace (0 if none).
pub open spec fn back_space(s: Seq<char>, j: int) -> int
    decreases j,
{
    if j <= 0 {
        0
    } else if is_space(s[j - 1]) {
        back_space(s, j - 1)
    } else {
        j
    }
}

/// Moving back from `j`, the first index whose predecessor is whitespace (0 if none).
pub open spec fn back_word(s: Seq<char>, j: int) -> int
    decreases j,
{
    if j <= 0 {
        0
    } else if !is_space(s[j - 1]) {
        back_word(s, j - 1)
    } else {
        j
    }
}

/// The first whitespace-separated word of `s` (empty when `s` is blank).
pub open spec fn first_word(s: Seq<char>) -> Seq<char> {
    let a = skip_space(s, 0);
    s.subrange(a, skip_word(s, a))
}

/// The last whitespace-separated word of `s` (empty when `s` is blank).
pub open spec fn last_word(s: Seq<char>) -> Seq<char> {
    let e = back_space(s, s.len() as int);
    s.subrange(back_word(s, e), e)
}

/// `s` holds at least two whitespace-separated words.
pub open spec fn has_two_words(s: Seq<char>) -> bool {
    skip_space(s, skip_word(s, skip_space(s, 0))) < s.len()
}

/// Index of the last `c` before position `j`, or -1.
pub open spec fn last_index_before(s: Seq<char>, c: char, j: int) -> int
    decreases j,
{
    if j <= 0 {
        -1
    } else if s[j - 1] == c {
        j - 1
    } else {
        last_index_before(s, c, j - 1)
    }
}

/// What follows the last `c` in `s` (all of `s` when it holds no `c`).
pub open spec fn after_last(s: Seq<char>, c: char) -> Seq<char> {
    s.subrange(last_index_before(s, c, s.len() as int) + 1, s.len() as int)
}

/// Index of the first `c` at or after `i`, or the length when there is none.
pub open spec fn first_index_from(s: Seq<char>, c: char, i: int) -> int
    decreases s.len() - i,
{
    if i >= s.len() {
        s.len() as int
    } else if s[i] == c {
        i
    } else {
        first_index_from(s, c, i + 1)
    }
}

/// `t` occurs in `s` starting at `i`.
pub open spec fn occurs_at(s: Seq<char>, t: Seq<char>, i: int) -> bool {
    0 <= i && i + t.len() <= s.len() && s.subrange(i, i + t.len()) == t
}

/// `t` occurs somewhere in `s`.
pub open spec fn has_infix(s: Seq<char>, t: Seq<char>) -> bool {
    exists|i: int| #[trigger] occurs_at(s, t, i)
}

/// `s` ends with `t`.
pub open spec fn has_suffix(s: Seq<char>, t: Seq<char>) -> bool {
    t.len() <= s.len() && s.subrange(s.len() - t.len(), s.len() as int) == t
}

/// `s` begins with `t`.
pub open spec fn has_prefix(s: Seq<char>, t: Seq<char>) -> bool {
    t.len() <= s.len() && s.subrange(0, t.len() as int) == t
}

pub proof fn lemma_skip_space_bounds(s: Seq<char>, i: int)
    requires
        0 <= i,
    ensures
        i <= s.len() ==> i <= skip_space(s, i) <= s.len(),
        i > s.len() ==> skip_space(s, i) == s.len(),
    decreases s.len() - i,
{
    if i < s.len() && is_space(s[i]) {
        lemma_skip_space_bounds(s, i + 1);
    }
}

pub proof fn lemma_skip_word_bounds(s: Seq<char>, i: int)
    requires
        0 <= i <= s.len(),
    ensures
        i <= skip_word(s, i) <= s.len(),
    decreases s.len() - i,
{
    if i < s.len() && !is_space(s[i]) {
        lemma_skip_word_bounds(s, i + 1);
    }
}

pub proof fn lemma_back_bounds(s: Seq<char>, j: int)
    requires
        0 <= j <= s.len(),
    ensures
        0 <= back_space(s, j) <= j,
        0 <= back_word(s, j) <= j,
    decreases j,
{
    if j > 0 {
        lemma_back_bounds(s, j - 1);
    }
}

pub proof fn lemma_last_index_bounds(s: Seq<char>, c: char, j: int)
    requires
        0 <= j <= s.len(),
    ensures
        -1 <= last_index_before(s, c, j) < j,
        last_index_before(s, c, j) >= 0 ==> s[last_index_before(s, c, j)] == c,
    decreases j,
{
    if j > 0 {
        lemma_last_index_bounds(s, c, j - 1);
    }
}

/// Positions in `[a, b)` that hold no `c` do not move the last `c` before `b`.
pub proof fn lemma_last_index_skips(s: Seq<char>, c: char, a: int, b: int)
    requires
        0 <= a <= b <= s.len(),
        forall|k: int| a <= k < b ==> s[k] != c,
    ensures
        last_index_before(s, c, b) == last_index_before(s, c, a),
    decreases b - a,
{
    if b > a {
        lemma_last_index_skips(s, c, a, b - 1);
    }
}

pub proof fn lemma_first_index_bounds(s: Seq<char>, c: char, i: int)
    requires
        0 <= i <= s.len(),
    ensures
        i <= first_index_from(s, c, i) <= s.len(),
        first_index_from(s, c, i) < s.len() ==> s[first_index_from(s, c, i)] == c,
        forall|k: int| i <= k < first_index_from(s, c, i) ==> s[k] != c,
    decreases s.len() - i,
{
    if i < s.len() && s[i] != c {
        lemma_first_index_bounds(s, c, i + 1);
    }
}

/// A copy of `s[a..b]`.
pub fn copy_range(s: &Vec<char>, a: usize, b: usize) -> (r: Vec<char>)
    requires
        a <= b <= s.len(),
    ensures
        r@ == s@.subrange(a as int, b as int),
{
    let mut r: Vec<char> = Vec::new();
    let mut i: usize = a;
    while i < b
        invariant
            a <= i <= b <= s.len(),
            r@ == s@.subrange(a as int, i as int),
        decreases b - i,
    {
        r.push(s[i]);
        i += 1;
        assert(r@ =~= s@.subrange(a as int, i as int));
    }
    r
}

/// Whether `c` is whitespace in the sense of `char::is_whitespace`.
pub fn is_space_char(c: char) -> (r: bool)
    ensures
        r == is_space(c),
{
    let u = c as u32;
    (0x09 <= u && u <= 0x0D) || u == 0x20 || u == 0x85 || u == 0xA0 || u == 0x1680 || (0x2000
        <= u && u <= 0x200A) || u == 0x2028 || u == 0x2029 || u == 0x202F || u == 0x205F || u
        == 0x3000
}

pub fn skip_space_from(s: &Vec<char>, i: usize) -> (r: usize)
    requires
        i <= s.len(),
    ensures
        r == skip_space(s@, i as int),
{
    let mut k: usize = i;
    while k < s.len() && is_space_char(s[k])
        invariant
            i <= k <= s.len(),
            skip_space(s@, k as int) == skip_space(s@, i as int),
        decreases s.len() - k,
    {
        k += 1;
    }
    k
}

pub fn skip_word_from(s: &Vec<char>, i: usize) -> (r: usize)
    requires
        i <= s.len(),
    ensures
        r == skip_word(s@, i as int),
{
    let mut k: usize = i;
    while k < s.len() && !is_space_char(s[k])
        invariant
            i <= k <= s.len(),
            skip_word(s@, k as int) == skip_word(s@, i as int),
        decreases s.len() - k,
    {
        k += 1;
    }
    k
}

pub fn back_space_from(s: &Vec<char>, j: usize) -> (r: usize)
    requires
        j <= s.len(),
    ensures
        r == back_space(s@, j as int),
{
    let mut k: usize = j;
    while k > 0 && is_space_char(s[k - 1])
        invariant
            k <= j <= s.len(),
            back_space(s@, k as int) == back_space(s@, j as int),
        decreases k,
    {
        k -= 1;
    }
    k
}

pub fn back_word_from(s: &Vec<char>, j: usize) -> (r: usize)
    requires
        j <= s.len(),
    ensures
        r == back_word(s@, j as int),
{
    let mut k: usize = j;
    while k > 0 && !is_space_char(s[k - 1])
        invariant
            k <= j <= s.len(),
            back_word(s@, k as int) == back_word(s@, j as int),
        decreases k,
    {
        k -= 1;
    }
    k
}

/// One past the last `c` before `j` (0 when there is none).
pub fn after_last_index(s: &Vec<char>, c: char, j: usize) -> (r: usize)
    requires
        j <= s.len(),
    ensures
        r as int == last_index_before(s@, c, j as int) + 1,
        r <= j,
{
    let mut k: usize = j;
    while k > 0 && s[k - 1] != c
        invariant
            k <= j <= s.len(),
            last_index_before(s@, c, k as int) == last_index_before(s@, c, j as int),
        decreases k,
    {
        k -= 1;
    }
    k
}

pub fn first_index(s: &Vec<char>, c: char, i: usize) -> (r: usize)
    requires
        i <= s.len(),
    ensures
        r as int == first_index_from(s@, c, i as int),
{
    let mut k: usize = i;
    while k < s.len() && s[k] != c
        invariant
            i <= k <= s.len(),
            first_index_from(s@, c, k as int) == first_index_from(s@, c, i as int),
        decreases s.len() - k,
    {
        k += 1;
    }
    k
}

/// Whether `t` occurs in `s` at position `i`.
pub fn occurs_at_exec(s: &Vec<char>, t: &Vec<char>, i: usize) -> (r: bool)
    ensures
        r == occurs_at(s@, t@, i as int),
{
    if i > s.len() || t.len() > s.len() - i {
        return false;
    }
    let mut j: usize = 0;
    while j < t.len()
        invariant
            i + t.len() <= s.len(),
            j <= t.len(),
            forall|m: int| 0 <= m < j ==> s@[i + m] == t@[m],
        decreases t.len() - j,
    {
        if s[i + j] != t[j] {
            assert(s@.subrange(i as int, i + t.len())[j as int] != t@[j as int]);
            return false;
        }
        j += 1;
    }
    assert(s@.subrange(i as int, i + t.len()) =~= t@);
    true
}

/// Whether `t` occurs anywhere in `s`.
pub fn has_infix_exec(s: &Vec<char>, t: &Vec<char>) -> (r: bool)
    ensures
        r == has_infix(s@, t@),
{
    if t.len() > s.len() {
        assert forall|k: int| !occurs_at(s@, t@, k) by {}
        return false;
    }
    let last = s.len() - t.len();
    let mut i: usize = 0;
    loop
        invariant
            t.len() <= s.len(),
            last == s.len() - t.len(),
            i <= last,
            forall|k: int| 0 <= k < i ==> !occurs_at(s@, t@, k),
        ensures
            forall|k: int| 0 <= k <= last ==> !occurs_at(s@, t@, k),
        decreases last - i,
    {
        if occurs_at_exec(s, t, i) {
            return true;
        }
        if i == last {
            break;
        }
        i += 1;
    }
    assert forall|k: int| !occurs_at(s@, t@, k) by {}
    false
}

/// Whether `s` ends with `t`.
pub fn has_suffix_exec(s: &Vec<char>, t: &Vec<char>) -> (r: bool)
    ensures
        r == has_suffix(s@, t@),
{
    if t.len() > s.len() {
        return false;
    }
    let r = occurs_at_exec(s, t, s.len() - t.len());
    r
}

/// Whether `s` begins with `t`.
pub fn has_prefix_exec(s: &Vec<char>, t: &Vec<char>) -> (r: bool)
    ensures
        r == has_prefix(s@, t@),
{
    occurs_at_exec(s, t, 0)
}

/// A line without the carriage return that ended it before its newline.
pub open spec fn strip_cr(l: Seq<char>) -> Seq<char> {
    if l.len() > 0 && l.last() == '\r' {
        l.drop_last()
    } else {
        l
    }
}

/// Where the last line of `t` starts, when a final newline of `t` is set aside.
pub open spec fn last_line_start(t: Seq<char>) -> int {
    let body = if t.len() > 0 && t.last() == '\n' {
        t.drop_last()
    } else {
        t
    };
    last_index_before(body, '\n', body.len() as int) + 1
}

/// The last line of `t`: without its newline, and without a carriage return before it.
pub open spec fn last_line(t: Seq<char>) -> Seq<char> {
    if t.len() > 0 && t.last() == '\n' {
        strip_cr(t.subrange(last_line_start(t), t.len() - 1))
    } else {
        t.subrange(last_line_start(t), t.len() as int)
    }
}

/// The lines of `t` as `str::lines` gives them: split at newlines, a carriage return
/// before a newline dropped, no empty line after a final newline.
pub open spec fn text_lines(t: Seq<char>) -> Seq<Seq<char>>
    decreases t.len(),
    via text_lines_decreases
{
    if t.len() == 0 {
        Seq::empty()
    } else {
        text_lines(t.subrange(0, last_line_start(t))).push(last_line(t))
    }
}

#[via_fn]
proof fn text_lines_decreases(t: Seq<char>) {
    if t.len() > 0 {
        if t.last() == '\n' {
            lemma_last_index_bounds(t.drop_last(), '\n', t.len() - 1);
        } else {
            lemma_last_index_bounds(t, '\n', t.len() - 1);
        }
    }
}

/// When `u[i..]` is one line (newline-terminated or not) after a line break or at the
/// start, it starts the last line of `u`.
pub proof fn lemma_last_line_start(u: Seq<char>, i: int)
    requires
        0 <= i < u.len(),
        i == 0 || u[i - 1] == '\n',
        forall|k: int| i <= k < u.len() - 1 ==> u[k] != '\n',
    ensures
        last_line_start(u) == i,
{
    let body = if u.last() == '\n' {
        u.drop_last()
    } else {
        u
    };
    assert forall|k: int| i <= k < body.len() implies body[k] != '\n' by {
        if k < u.len() - 1 {
            assert(body[k] == u[k]);
        }
    }
    lemma_last_index_skips(body, '\n', i, body.len() as int);
    if i > 0 {
        assert(body[i - 1] == u[i - 1]);
    }
}

/// The lines of `text`, as `str::lines` gives them.
pub fn split_lines(text: &str) -> (r: Vec<Vec<char>>)
    ensures
        r@.map_values(|l: Vec<char>| l@) == text_lines(text@),
{
    let t = chars_of(text);
    let mut out: Vec<Vec<char>> = Vec::new();
    let mut i: usize = 0;
    while i < t.len()
        invariant
            i <= t.len(),
            i == 0 || i == t.len() || t@[i - 1] == '\n',
            out@.map_values(|l: Vec<char>| l@) == text_lines(t@.subrange(0, i as int)),
        decreases t.len() - i,
    {
        let e = first_index(&t, '\n', i);
        proof {
            lemma_first_index_bounds(t@, '\n', i as int);
        }
        let ghost before = out@;
        if e < t.len() {
            let mut end = e;
            if end > i && t[end - 1] == '\r' {
                end = end - 1;
            }
            out.push(copy_range(&t, i, end));
            proof {
                let u = t@.subrange(0, e + 1);
                if i > 0 {
                    assert(u[i - 1] == t@[i - 1]);
                }
                lemma_last_line_start(u, i as int);
                assert(u.subrange(0, i as int) =~= t@.subrange(0, i as int));
                assert(t@.subrange(i as int, end as int) =~= last_line(u));
                assert(out@.map_values(|l: Vec<char>| l@) =~= before.map_values(
                    |l: Vec<char>| l@,
                ).push(last_line(u)));
            }
            i = e + 1;
        } else {
            out.push(copy_range(&t, i, t.len()));
            proof {
                let u = t@.subrange(0, t.len() as int);
                assert(u =~= t@);
                if i > 0 {
                    assert(u[i - 1] == t@[i - 1]);
                }
                lemma_last_line_start(u, i as int);
                assert(t@.subrange(i as int, t.len() as int) =~= last_line(u));
                assert(out@.map_values(|l: Vec<char>| l@) =~= before.map_values(
                    |l: Vec<char>| l@,
                ).push(last_line(u)));
            }
            i = t.len();
        }
    }
    assert(t@.subrange(0, t.len() as int) =~= t@);
    out
}

/// First index at or after `i` that does not hold `c` (the length if there is none).
pub open spec fn skip_char(s: Seq<char>, c: char, i: int) -> int
    decreases s.len() - i,
{
    if i >= s.len() {
        s.len() as int
    } else if s[i] == c {
        skip_char(s, c, i + 1)
    } else {
        i
    }
}

/// Moving back from `j`, the first index whose predecessor does not hold `c` (0 if none).
pub open spec fn back_char(s: Seq<char>, c: char, j: int) -> int
    decreases j,
{
    if j <= 0 {
        0
    } else if s[j - 1] == c {
        back_char(s, c, j - 1)
    } else {
        j
    }
}

/// `s` without the `c` at either end, as `str::trim_matches` gives it.
pub open spec fn trim_char(s: Seq<char>, c: char) -> Seq<char> {
    let a = skip_char(s, c, 0);
    let b = back_char(s, c, s.len() as int);
    if a < b {
        s.subrange(a, b)
    } else {
        Seq::empty()
    }
}

/// `s` without the `c` at either end.
pub fn trim_char_exec(s: &Vec<char>, c: char) -> (r: Vec<char>)
    ensures
        r@ == trim_char(s@, c),
{
    let mut a: usize = 0;
    while a < s.len() && s[a] == c
        invariant
            a <= s.len(),
            skip_char(s@, c, a as int) == skip_char(s@, c, 0),
        decreases s.len() - a,
    {
        a += 1;
    }
    let mut b: usize = s.len();
    while b > 0 && s[b - 1] == c
        invariant
            b <= s.len(),
            back_char(s@, c, b as int) == back_char(s@, c, s.len() as int),
        decreases b,
    {
        b -= 1;
    }
    if a < b {
        copy_range(s, a, b)
    } else {
        Vec::new()
    }
}

/// Whether `s` has the text of the literal `lit`.
pub fn is_text(s: &String, lit: &str) -> (r: bool)
    ensures
        r == (s@ == lit@),
{
    let l = String::from_str(lit);
    *s == l
}

} // verus!
