//! Sets of names kept as vectors of strings without repetition.
use vstd::prelude::*;

verus! {

/// The texts of a sequence of strings.
pub open spec fn views(v: Seq<String>) -> Seq<Seq<char>> {
    v.map_values(|s: String| s@)
}

/// The set of texts of a sequence of strings.
pub open spec fn set_of(v: Seq<String>) -> Set<Seq<char>> {
    Set::new(|p: Seq<char>| exists|j: int| 0 <= j < v.len() && #[trigger] v[j]@ == p)
}

/// No text occurs twice.
pub open spec fn distinct(v: Seq<String>) -> bool {
    forall|i: int, j: int| 0 <= i < j < v.len() ==> v[i]@ != v[j]@
}

/// Whether some string of `v` has the text of `s`.
pub fn contains_text(v: &Vec<String>, s: &String) -> (r: bool)
    ensures
        r == set_of(v@).contains(s@),
{
    let mut i: usize = 0;
    while i < v.len()
        invariant
            i <= v.len(),
            forall|j: int| 0 <= j < i ==> v@[j]@ != s@,
        decreases v.len() - i,
    {
        if v[i] == *s {
            assert(v@[i as int]@ == s@);
            return true;
        }
        i += 1;
    }
    false
}

/// Adds `s` unless a string with its text is already there.
pub fn insert_text(v: &mut Vec<String>, s: String)
    requires
        distinct(old(v)@),
    ensures
        distinct(final(v)@),
        set_of(final(v)@) == set_of(old(v)@).insert(s@),
{
    if contains_text(v, &s) {
        assert(set_of(v@) =~= set_of(v@).insert(s@));
        return;
    }
    let ghost before = v@;
    v.push(s);
    proof {
        assert forall|x: Seq<char>| #[trigger]
            set_of(v@).contains(x) == set_of(before).insert(s@).contains(x) by {
            if set_of(before).contains(x) {
                let j = choose|j: int| 0 <= j < before.len() && #[trigger] before[j]@ == x;
                assert(v@[j] == before[j]);
            }
            if set_of(v@).contains(x) {
                let j = choose|j: int| 0 <= j < v@.len() && #[trigger] v@[j]@ == x;
                if j < before.len() {
                    assert(v@[j] == before[j]);
                }
            }
            assert(v@[before.len() as int] == s);
        }
        assert(set_of(v@) =~= set_of(before).insert(s@));
    }
}

/// Adds each string of `items` unless one with its text is already there.
pub fn extend_texts(v: &mut Vec<String>, items: &Vec<String>)
    requires
        distinct(old(v)@),
    ensures
        distinct(final(v)@),
        set_of(final(v)@) == set_of(old(v)@).union(set_of(items@)),
{
    let mut i: usize = 0;
    while i < items.len()
        invariant
            i <= items.len(),
            distinct(v@),
            set_of(v@) == set_of(old(v)@).union(set_of(items@.subrange(0, i as int))),
        decreases items.len() - i,
    {
        let ghost before = v@;
        insert_text(v, items[i].clone());
        proof {
            let pre = items@.subrange(0, i as int);
            let post = items@.subrange(0, i + 1);
            assert forall|x: Seq<char>| #[trigger] set_of(post).contains(x) == set_of(pre).insert(
                items@[i as int]@,
            ).contains(x) by {
                if set_of(pre).contains(x) {
                    let j = choose|j: int| 0 <= j < pre.len() && #[trigger] pre[j]@ == x;
                    assert(post[j] == pre[j]);
                }
                if set_of(post).contains(x) {
                    let j = choose|j: int| 0 <= j < post.len() && #[trigger] post[j]@ == x;
                    if j < pre.len() {
                        assert(post[j] == pre[j]);
                    }
                }
                assert(post[i as int] == items@[i as int]);
            }
            assert(set_of(post) =~= set_of(pre).insert(items@[i as int]@));
            assert(set_of(v@) =~= set_of(old(v)@).union(set_of(post)));
        }
        i += 1;
    }
    assert(items@.subrange(0, items.len() as int) =~= items@);
}

} // verus!
