use vstd::prelude::*;
use vstd::string::StrSliceExecFns;

verus! {

/// What `str::to_lowercase` makes of a string: full Unicode case folding,
/// which depends on the characters alone.
pub uninterp spec fn lower_of(s: Seq<char>) -> Seq<char>;

/// Relies on `str::to_lowercase`: the result depends on the characters
/// alone, and an empty string stays empty.
#[verifier::external_body]
pub(crate) fn lowercase(s: &str) -> (r: String)
    ensures
        r@ == lower_of(s@),
        s@.len() == 0 ==> r@.len() == 0,
{
    s.to_lowercase()
}

/// `pat` occurs in `hay` as a contiguous run of characters.
pub open spec fn contains(hay: Seq<char>, pat: Seq<char>) -> bool {
    exists|i: int| 0 <= i && i + pat.len() <= hay.len() && #[trigger] hay.subrange(i, i + pat.len()) == pat
}

/// Whether `pat` occurs in `hay` at position `i`.
pub open spec fn occurs_at(hay: Seq<char>, pat: Seq<char>, i: int) -> bool {
    0 <= i && i + pat.len() <= hay.len() && hay.subrange(i, i + pat.len()) == pat
}

/// The empty pattern occurs in every string.
pub proof fn lemma_contains_empty(hay: Seq<char>, pat: Seq<char>)
    requires
        pat.len() == 0,
    ensures
        contains(hay, pat),
{
    assert(hay.subrange(0, 0 + pat.len() as int) =~= pat);
}

/// Containment is transitive.
pub proof fn lemma_contains_trans(x: Seq<char>, y: Seq<char>, z: Seq<char>)
    requires
        contains(x, y),
        contains(y, z),
    ensures
        contains(x, z),
{
    let i = choose|i: int| 0 <= i && i + y.len() <= x.len() && #[trigger] x.subrange(i, i + y.len()) == y;
    let j = choose|j: int| 0 <= j && j + z.len() <= y.len() && #[trigger] y.subrange(j, j + z.len()) == z;
    assert(x.subrange(i + j, i + j + z.len()) =~= z) by {
        assert forall|k: int| 0 <= k < z.len() implies x.subrange(i + j, i + j + z.len())[k] == z[k] by {
            assert(z[k] == y.subrange(j, j + z.len())[k]);
            assert(y[j + k] == x.subrange(i, i + y.len())[j + k]);
        }
    }
}

/// Whether `pat` occurs in `hay`; both are taken as they are, so a caller
/// that wants a case-insensitive match hands in folded strings.
pub fn is_substring(hay: &str, pat: &str) -> (r: bool)
    ensures
        r == contains(hay@, pat@),
{
    let h = hay.unicode_len();
    let p = pat.unicode_len();
    if p == 0 {
        proof {
            lemma_contains_empty(hay@, pat@);
        }
        return true;
    }
    if p > h {
        return false;
    }
    let mut i: usize = 0;
    while i <= h - p
        invariant
            h == hay@.len(),
            p == pat@.len(),
            1 <= p <= h,
            i <= h - p + 1,
            forall|k: int| 0 <= k < i ==> !occurs_at(hay@, pat@, k),
        decreases h - p + 1 - i,
    {
        let mut j: usize = 0;
        let mut same = true;
        while j < p && same
            invariant
                h == hay@.len(),
                p == pat@.len(),
                i + p <= h,
                j <= p,
                same ==> forall|k: int| 0 <= k < j ==> hay@[i + k] == pat@[k],
                !same ==> !occurs_at(hay@, pat@, i as int),
            decreases p - j,
        {
            if hay.get_char(i + j) != pat.get_char(j) {
                same = false;
                assert(hay@.subrange(i as int, i + p)[j as int] == hay@[i + j]);
            }
            j = j + 1;
        }
        if same {
            assert(hay@.subrange(i as int, i + p) =~= pat@);
            return true;
        }
        i = i + 1;
    }
    assert forall|k: int| 0 <= k && k + pat@.len() <= hay@.len() implies #[trigger] hay@.subrange(k, k + pat@.len()) != pat@ by {
        assert(!occurs_at(hay@, pat@, k));
    }
    false
}

/// Ordinal order on names: lexicographic by code point. On UTF-8 text this
/// is the same order as comparing the encoded bytes.
pub open spec fn name_lt(a: Seq<char>, b: Seq<char>) -> bool
    decreases a.len(),
{
    if a.len() == 0 {
        b.len() > 0
    } else if b.len() == 0 {
        false
    } else if a[0] != b[0] {
        a[0] < b[0]
    } else {
        name_lt(a.subrange(1, a.len() as int), b.subrange(1, b.len() as int))
    }
}

pub proof fn lemma_name_lt_irreflexive(a: Seq<char>)
    ensures
        !name_lt(a, a),
    decreases a.len(),
{
    if a.len() > 0 {
        lemma_name_lt_irreflexive(a.subrange(1, a.len() as int));
    }
}

pub proof fn lemma_name_lt_trichotomy(a: Seq<char>, b: Seq<char>)
    ensures
        a == b || name_lt(a, b) || name_lt(b, a),
    decreases a.len(),
{
    if a.len() > 0 && b.len() > 0 && a[0] == b[0] {
        let a1 = a.subrange(1, a.len() as int);
        let b1 = b.subrange(1, b.len() as int);
        lemma_name_lt_trichotomy(a1, b1);
        if a1 == b1 {
            assert(a1.len() == b1.len());
            assert(a.len() == b.len());
            assert(a =~= b) by {
                assert forall|k: int| 0 <= k < a.len() implies a[k] == b[k] by {
                    if k > 0 {
                        assert(a[k] == a1[k - 1]);
                        assert(b[k] == b1[k - 1]);
                    }
                }
            }
        }
    } else if a.len() == 0 && b.len() == 0 {
        assert(a =~= b);
    }
}

pub proof fn lemma_name_lt_trans(a: Seq<char>, b: Seq<char>, c: Seq<char>)
    requires
        name_lt(a, b),
        name_lt(b, c),
    ensures
        name_lt(a, c),
    decreases a.len(),
{
    if a.len() > 0 && a[0] == b[0] && b[0] == c[0] {
        lemma_name_lt_trans(
            a.subrange(1, a.len() as int),
            b.subrange(1, b.len() as int),
            c.subrange(1, c.len() as int),
        );
    }
}

/// Whether `a` comes before `b` in ordinal order.
pub fn name_less(a: &str, b: &str) -> (r: bool)
    ensures
        r == name_lt(a@, b@),
{
    let la = a.unicode_len();
    let lb = b.unicode_len();
    let mut i: usize = 0;
    assert(a@.subrange(0, la as int) =~= a@);
    assert(b@.subrange(0, lb as int) =~= b@);
    while i < la && i < lb
        invariant
            la == a@.len(),
            lb == b@.len(),
            i <= la,
            i <= lb,
            name_lt(a@, b@) == name_lt(a@.subrange(i as int, la as int), b@.subrange(i as int, lb as int)),
        decreases la - i,
    {
        let ca = a.get_char(i);
        let cb = b.get_char(i);
        let ghost sa = a@.subrange(i as int, la as int);
        let ghost sb = b@.subrange(i as int, lb as int);
        assert(sa[0] == ca && sb[0] == cb);
        if ca != cb {
            return ca < cb;
        }
        assert(sa.subrange(1, sa.len() as int) =~= a@.subrange(i + 1, la as int));
        assert(sb.subrange(1, sb.len() as int) =~= b@.subrange(i + 1, lb as int));
        i = i + 1;
    }
    i < lb
}

/// ASCII case folding of one character, as a code point.
pub open spec fn ascii_fold(c: char) -> u32 {
    if 65 <= (c as u32) && (c as u32) <= 90 {
        ((c as u32) + 32) as u32
    } else {
        c as u32
    }
}

/// Equality of two strings up to ASCII case.
pub open spec fn eq_ascii_ci(a: Seq<char>, b: Seq<char>) -> bool {
    a.len() == b.len() && forall|k: int| 0 <= k < a.len() ==> ascii_fold(#[trigger] a[k]) == ascii_fold(b[k])
}

/// Whether `a` and `b` are equal up to ASCII case.
pub fn equal_ignoring_ascii_case(a: &str, b: &str) -> (r: bool)
    ensures
        r == eq_ascii_ci(a@, b@),
{
    let la = a.unicode_len();
    let lb = b.unicode_len();
    if la != lb {
        return false;
    }
    let mut i: usize = 0;
    while i < la
        invariant
            la == a@.len(),
            lb == b@.len(),
            la == lb,
            i <= la,
            forall|k: int| 0 <= k < i ==> ascii_fold(#[trigger] a@[k]) == ascii_fold(b@[k]),
        decreases la - i,
    {
        let ca = a.get_char(i) as u32;
        let cb = b.get_char(i) as u32;
        let fa: u32 = if 65 <= ca && ca <= 90 { ca + 32 } else { ca };
        let fb: u32 = if 65 <= cb && cb <= 90 { cb + 32 } else { cb };
        if fa != fb {
            assert(ascii_fold(a@[i as int]) != ascii_fold(b@[i as int]));
            return false;
        }
        i = i + 1;
    }
    true
}

} // verus!
