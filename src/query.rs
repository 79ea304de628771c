use vstd::prelude::*;
use crate::catalog::{entries, is_catalog, AppEntry, AppInfo};
use crate::text::{contains, is_substring, lemma_contains_empty, lemma_contains_trans, lower_of, lowercase, name_lt};

verus! {

/// The entry's lower-cased name holds the folded query.
pub open spec fn matches(e: AppEntry, folded_query: Seq<char>) -> bool {
    contains(lower_of(e.name), folded_query)
}

/// The entries of `c` that match the folded query, in the order of `c`.
pub open spec fn select(c: Seq<AppEntry>, folded_query: Seq<char>) -> Seq<AppEntry>
    decreases c.len(),
{
    if c.len() == 0 {
        Seq::empty()
    } else {
        let before = select(c.drop_last(), folded_query);
        if matches(c.last(), folded_query) {
            before.push(c.last())
        } else {
            before
        }
    }
}

/// The entries of `catalog` whose lower-cased name holds `folded_query`,
/// which the caller has lower-cased already.
pub fn filter_folded(catalog: &Vec<AppInfo>, folded_query: &str) -> (r: Vec<AppInfo>)
    ensures
        entries(r@) == select(entries(catalog@), folded_query@),
{
    let mut out: Vec<AppInfo> = Vec::new();
    let mut i: usize = 0;
    assert(entries(catalog@).subrange(0, 0) =~= Seq::<AppEntry>::empty());
    while i < catalog.len()
        invariant
            i <= catalog@.len(),
            entries(out@) == select(entries(catalog@).subrange(0, i as int), folded_query@),
        decreases catalog.len() - i,
    {
        let ghost c = entries(catalog@);
        assert(c.subrange(0, i + 1).drop_last() =~= c.subrange(0, i as int));
        assert(c.subrange(0, i + 1).last() == catalog@[i as int]@);
        let name = lowercase(catalog[i].name.as_str());
        if is_substring(name.as_str(), folded_query) {
            let ghost before = entries(out@);
            out.push(catalog[i].duplicate());
            assert(entries(out@) =~= before.push(catalog@[i as int]@));
        }
        i = i + 1;
    }
    assert(entries(catalog@).subrange(0, catalog@.len() as int) =~= entries(catalog@));
    out
}

/// The entries of `catalog` whose name holds `query`, both compared
/// lower-cased, in catalog order. An empty query keeps every entry.
pub fn filter(catalog: &Vec<AppInfo>, query: &str) -> (r: Vec<AppInfo>)
    ensures
        entries(r@) == select(entries(catalog@), lower_of(query@)),
        query@.len() == 0 ==> entries(r@) == entries(catalog@),
{
    let folded = lowercase(query);
    let r = filter_folded(catalog, folded.as_str());
    proof {
        if query@.len() == 0 {
            lemma_select_empty(entries(catalog@), folded@);
        }
    }
    r
}

/// An empty query selects the whole catalog, in order.
pub proof fn lemma_select_empty(c: Seq<AppEntry>, folded_query: Seq<char>)
    requires
        folded_query.len() == 0,
    ensures
        select(c, folded_query) == c,
    decreases c.len(),
{
    if c.len() > 0 {
        lemma_select_empty(c.drop_last(), folded_query);
        lemma_contains_empty(lower_of(c.last().name), folded_query);
        assert(c.drop_last().push(c.last()) =~= c);
    }
}

/// Queries that lower-case alike select alike: the filter sees a query only
/// through its lower-cased form.
pub proof fn lemma_case_insensitive(c: Seq<AppEntry>, a: Seq<char>, b: Seq<char>)
    requires
        lower_of(a) == lower_of(b),
    ensures
        select(c, lower_of(a)) == select(c, lower_of(b)),
{
}

/// Narrowing: where the folded query `b` holds the folded query `a`, what
/// `b` selects is what `b` selects from the selection for `a`, so every
/// entry that `b` selects is also selected by `a`, in the same order.
pub proof fn lemma_narrowing(c: Seq<AppEntry>, a: Seq<char>, b: Seq<char>)
    requires
        contains(b, a),
    ensures
        select(c, b) == select(select(c, a), b),
        is_subsequence(select(c, b), select(c, a)),
    decreases c.len(),
{
    lemma_select_subsequence(select(c, a), b);
    if c.len() > 0 {
        lemma_narrowing(c.drop_last(), a, b);
        let e = c.last();
        if matches(e, b) {
            lemma_contains_trans(lower_of(e.name), b, a);
            let s = select(c.drop_last(), a).push(e);
            assert(s.drop_last() =~= select(c.drop_last(), a));
        } else if matches(e, a) {
            let s = select(c.drop_last(), a).push(e);
            assert(s.drop_last() =~= select(c.drop_last(), a));
        }
    }
}

/// `pos` lists strictly increasing positions of `c` that hold the entries of
/// `s`, one by one.
pub open spec fn picks(c: Seq<AppEntry>, s: Seq<AppEntry>, pos: Seq<int>) -> bool {
    &&& pos.len() == s.len()
    &&& forall|k: int| 0 <= k < pos.len() ==> 0 <= #[trigger] pos[k] < c.len() && c[pos[k]] == s[k]
    &&& forall|k: int, l: int| 0 <= k < l < pos.len() ==> #[trigger] pos[k] < #[trigger] pos[l]
}

/// `s` is `c` with some entries left out, the rest in the same order.
pub open spec fn is_subsequence(s: Seq<AppEntry>, c: Seq<AppEntry>) -> bool {
    exists|pos: Seq<int>| #[trigger] picks(c, s, pos)
}

/// Every entry that `select` keeps comes from `c`, in the order of `c`.
pub proof fn lemma_select_subsequence(c: Seq<AppEntry>, q: Seq<char>)
    ensures
        is_subsequence(select(c, q), c),
    decreases c.len(),
{
    if c.len() == 0 {
        assert(picks(c, select(c, q), Seq::<int>::empty()));
    } else {
        let d = c.drop_last();
        lemma_select_subsequence(d, q);
        let pos0 = choose|pos: Seq<int>| #[trigger] picks(d, select(d, q), pos);
        if matches(c.last(), q) {
            let pos = pos0.push(c.len() - 1);
            assert forall|k: int| 0 <= k < pos.len() implies 0 <= #[trigger] pos[k] < c.len() && c[pos[k]] == select(c, q)[k] by {
                if k < pos0.len() {
                    assert(pos[k] == pos0[k]);
                }
            }
            assert forall|k: int, l: int| 0 <= k < l < pos.len() implies #[trigger] pos[k] < #[trigger] pos[l] by {
                if l < pos0.len() {
                    assert(pos[k] == pos0[k] && pos[l] == pos0[l]);
                } else {
                    assert(pos[k] == pos0[k]);
                }
            }
            assert(picks(c, select(c, q), pos));
        } else {
            assert forall|k: int| 0 <= k < pos0.len() implies 0 <= #[trigger] pos0[k] < c.len() && c[pos0[k]] == select(c, q)[k] by {
                assert(c[pos0[k]] == d[pos0[k]]);
            }
            assert(picks(c, select(c, q), pos0));
        }
    }
}

/// Filtering a catalog leaves a catalog.
pub proof fn lemma_select_keeps_catalog(c: Seq<AppEntry>, q: Seq<char>)
    requires
        is_catalog(c),
    ensures
        is_catalog(select(c, q)),
{
    lemma_select_subsequence(c, q);
    let s = select(c, q);
    let pos = choose|pos: Seq<int>| #[trigger] picks(c, s, pos);
    assert forall|i: int, j: int| 0 <= i < j < s.len() implies name_lt(#[trigger] s[i].name, #[trigger] s[j].name) by {
        assert(pos[i] < pos[j]);
        assert(c[pos[i]] == s[i] && c[pos[j]] == s[j]);
    }
}

} // verus!
