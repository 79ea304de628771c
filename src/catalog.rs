use vstd::prelude::*;
use vstd::string::{StrSliceExecFns, StringExecFns};
use crate::text::{
    contains, eq_ascii_ci, equal_ignoring_ascii_case, is_substring, lemma_name_lt_irreflexive,
    lemma_name_lt_trans, lemma_name_lt_trichotomy, lower_of, lowercase, name_less, name_lt,
};

verus! {

/// An application entry as the contracts see it.
pub struct AppEntry {
    pub name: Seq<char>,
    pub path: Seq<char>,
}

/// One launchable item: its display name and the file that launches it.
#[derive(Clone, Debug)]
pub struct AppInfo {
    pub name: String,
    pub path: String,
}

impl View for AppInfo {
    type V = AppEntry;

    open spec fn view(&self) -> AppEntry {
        AppEntry { name: self.name@, path: self.path@ }
    }
}

impl AppInfo {
    /// An entry with the given name and path.
    pub fn new(name: String, path: String) -> (r: AppInfo)
        ensures
            r@ == (AppEntry { name: name@, path: path@ }),
    {
        AppInfo { name, path }
    }

    /// A copy with the same name and path.
    pub fn duplicate(&self) -> (r: AppInfo)
        ensures
            r@ == self@,
    {
        AppInfo { name: self.name.clone(), path: self.path.clone() }
    }
}

/// The entries of a list of items.
pub open spec fn entries(v: Seq<AppInfo>) -> Seq<AppEntry> {
    v.map_values(|a: AppInfo| a@)
}

/// A catalog is strictly ascending by name in ordinal order, so no name
/// appears twice.
pub open spec fn is_catalog(c: Seq<AppEntry>) -> bool {
    forall|i: int, j: int| 0 <= i < j < c.len() ==> name_lt(#[trigger] c[i].name, #[trigger] c[j].name)
}

/// Some entry of `c` is called `n`.
pub open spec fn has_name(c: Seq<AppEntry>, n: Seq<char>) -> bool {
    exists|i: int| 0 <= i < c.len() && #[trigger] c[i].name == n
}

/// `e` occurs in `cands`, and no earlier entry of `cands` has its name.
pub open spec fn first_with_name(cands: Seq<AppEntry>, e: AppEntry) -> bool {
    exists|k: int|
        0 <= k < cands.len() && #[trigger] cands[k] == e && forall|m: int| 0 <= m < k ==> #[trigger] cands[m].name != e.name
}

/// A regular file found while walking a directory tree: its full path and
/// its file name.
pub struct FoundFile {
    pub path: String,
    pub file_name: String,
}

/// Index of the last `.` in `s`, or -1 where there is none.
pub open spec fn last_dot(s: Seq<char>) -> int
    decreases s.len(),
{
    if s.len() == 0 {
        -1
    } else if s.last() == '.' {
        s.len() - 1
    } else {
        last_dot(s.drop_last())
    }
}

/// The file name without its extension. A leading dot does not start an
/// extension: `.profile` is all stem.
pub open spec fn stem_of(s: Seq<char>) -> Seq<char> {
    if last_dot(s) <= 0 {
        s
    } else {
        s.subrange(0, last_dot(s))
    }
}

/// The text after the last dot, where the dot is not the first character.
pub open spec fn extension_of(s: Seq<char>) -> Option<Seq<char>> {
    if last_dot(s) <= 0 {
        None
    } else {
        Some(s.subrange(last_dot(s) + 1, s.len() as int))
    }
}

proof fn lemma_last_dot_prefix(s: Seq<char>, i: int)
    requires
        0 <= i <= s.len(),
        forall|k: int| i <= k < s.len() ==> s[k] != '.',
    ensures
        last_dot(s) == last_dot(s.subrange(0, i)),
    decreases s.len() - i,
{
    if i < s.len() {
        assert(s.drop_last() =~= s.subrange(0, s.len() - 1));
        lemma_last_dot_prefix(s.drop_last(), i);
        assert(s.drop_last().subrange(0, i) =~= s.subrange(0, i));
    } else {
        assert(s.subrange(0, i) =~= s);
    }
}

/// Splits a file name into stem and extension.
pub fn split_file_name(name: &str) -> (r: (String, Option<String>))
    ensures
        r.0@ == stem_of(name@),
        r.1 is None <==> extension_of(name@) is None,
        r.1 is Some ==> extension_of(name@) == Some(r.1->Some_0@),
{
    let len = name.unicode_len();
    let mut i: usize = len;
    while i > 0 && name.get_char(i - 1) != '.'
        invariant
            len == name@.len(),
            i <= len,
            forall|k: int| i <= k < len ==> name@[k] != '.',
        decreases i,
    {
        i = i - 1;
    }
    proof {
        lemma_last_dot_prefix(name@, i as int);
        if i > 0 {
            assert(name@.subrange(0, i as int).last() == '.');
        } else {
            assert(name@.subrange(0, 0) =~= Seq::<char>::empty());
        }
    }
    if i <= 1 {
        (String::from_str(name), None)
    } else {
        let stem = String::from_str(name.substring_char(0, i - 1));
        let ext = String::from_str(name.substring_char(i, len));
        (stem, Some(ext))
    }
}

/// The extension is one of `exts`, up to ASCII case.
pub open spec fn ext_accepted(ext: Seq<char>, exts: Seq<String>) -> bool {
    exists|i: int| 0 <= i < exts.len() && eq_ascii_ci(ext, #[trigger] exts[i]@)
}

/// The lower-cased stem holds one of the lower-cased exclusions.
pub open spec fn is_excluded(stem: Seq<char>, excl: Seq<String>) -> bool {
    exists|j: int| 0 <= j < excl.len() && contains(lower_of(stem), lower_of(#[trigger] excl[j]@))
}

/// The file has an accepted extension and a stem that no exclusion hits.
pub open spec fn is_launchable(f: FoundFile, exts: Seq<String>, excl: Seq<String>) -> bool {
    match extension_of(f.file_name@) {
        Some(e) => ext_accepted(e, exts) && !is_excluded(stem_of(f.file_name@), excl),
        None => false,
    }
}

/// The entry that a launchable file stands for.
pub open spec fn candidate(f: FoundFile) -> AppEntry {
    AppEntry { name: stem_of(f.file_name@), path: f.path@ }
}

/// The entries of the launchable files, in the order they were found.
pub open spec fn candidates(files: Seq<FoundFile>, exts: Seq<String>, excl: Seq<String>) -> Seq<AppEntry>
    decreases files.len(),
{
    if files.len() == 0 {
        Seq::empty()
    } else {
        let before = candidates(files.drop_last(), exts, excl);
        if is_launchable(files.last(), exts, excl) {
            before.push(candidate(files.last()))
        } else {
            before
        }
    }
}

/// The extensions of launchable shortcut files.
pub fn default_extensions() -> (r: Vec<String>)
    ensures
        r@.len() == 1,
        r@[0]@ == "lnk"@,
{
    vec![String::from_str("lnk")]
}

/// The name fragments that mark an uninstaller.
pub fn default_exclusions() -> (r: Vec<String>)
    ensures
        r@.len() == 1,
        r@[0]@ == "uninstall"@,
{
    vec![String::from_str("uninstall")]
}

/// Whether the lower-cased stem holds one of the lower-cased exclusions;
/// both are taken as they are.
pub fn hits_exclusion(folded_stem: &str, folded_exclusions: &Vec<String>) -> (r: bool)
    ensures
        r == exists|j: int| 0 <= j < folded_exclusions@.len() && contains(folded_stem@, #[trigger] folded_exclusions@[j]@),
{
    let mut j: usize = 0;
    while j < folded_exclusions.len()
        invariant
            j <= folded_exclusions@.len(),
            forall|m: int| 0 <= m < j ==> !contains(folded_stem@, #[trigger] folded_exclusions@[m]@),
        decreases folded_exclusions.len() - j,
    {
        if is_substring(folded_stem, folded_exclusions[j].as_str()) {
            return true;
        }
        j = j + 1;
    }
    false
}

/// The entry for `f`, where it is launchable; `lowered` holds the exclusions
/// already lower-cased.
fn entry_for(f: &FoundFile, exts: &Vec<String>, excl: Ghost<Seq<String>>, lowered: &Vec<String>) -> (r: Option<AppInfo>)
    requires
        lowered@.len() == excl@.len(),
        forall|j: int| 0 <= j < excl@.len() ==> #[trigger] lowered@[j]@ == lower_of(excl@[j]@),
    ensures
        r is Some <==> is_launchable(*f, exts@, excl@),
        r is Some ==> r->Some_0@ == candidate(*f),
{
    let (stem, ext) = split_file_name(f.file_name.as_str());
    let ext = match ext {
        Some(e) => e,
        None => return None,
    };
    let mut i: usize = 0;
    let mut found = false;
    while i < exts.len() && !found
        invariant
            i <= exts@.len(),
            stem@ == stem_of(f.file_name@),
            extension_of(f.file_name@) == Some(ext@),
            found ==> ext_accepted(ext@, exts@),
            !found ==> forall|k: int| 0 <= k < i ==> !eq_ascii_ci(ext@, #[trigger] exts@[k]@),
        decreases exts.len() - i,
    {
        if equal_ignoring_ascii_case(ext.as_str(), exts[i].as_str()) {
            found = true;
        }
        i = i + 1;
    }
    if !found {
        return None;
    }
    let folded = lowercase(stem.as_str());
    if hits_exclusion(folded.as_str(), lowered) {
        proof {
            let j = choose|j: int| 0 <= j < lowered@.len() && contains(folded@, #[trigger] lowered@[j]@);
            assert(contains(lower_of(stem@), lower_of(excl@[j]@)));
        }
        return None;
    }
    assert forall|j: int| 0 <= j < excl@.len() implies !contains(lower_of(stem@), lower_of(#[trigger] excl@[j]@)) by {
        assert(lowered@[j]@ == lower_of(excl@[j]@));
    }
    Some(AppInfo { name: stem, path: f.path.clone() })
}

/// Puts `x` in its place in the catalog `out`, unless the name is taken.
/// Returns where it went.
fn insert_sorted(out: &mut Vec<AppInfo>, x: AppInfo) -> (pos: Option<usize>)
    requires
        is_catalog(entries(old(out)@)),
    ensures
        is_catalog(entries(final(out)@)),
        pos is None <==> has_name(entries(old(out)@), x@.name),
        pos is None ==> final(out)@ == old(out)@,
        pos is Some ==> pos->Some_0 <= old(out)@.len() && entries(final(out)@) == entries(old(out)@).insert(
            pos->Some_0 as int,
            x@,
        ),
{
    let ghost e = entries(out@);
    let mut p: usize = 0;
    while p < out.len() && name_less(out[p].name.as_str(), x.name.as_str())
        invariant
            e == entries(out@),
            is_catalog(e),
            p <= out@.len(),
            forall|k: int| 0 <= k < p ==> name_lt(#[trigger] e[k].name, x@.name),
        decreases out.len() - p,
    {
        p = p + 1;
    }
    if p < out.len() && out[p].name == x.name {
        assert(e[p as int].name == x@.name);
        return None;
    }
    proof {
        if p < e.len() {
            lemma_name_lt_trichotomy(e[p as int].name, x@.name);
        }
        assert forall|k: int| 0 <= k < e.len() implies #[trigger] e[k].name != x@.name by {
            if k < p {
                lemma_name_lt_irreflexive(x@.name);
            } else {
                if k > p {
                    lemma_name_lt_trans(x@.name, e[p as int].name, e[k].name);
                }
                lemma_name_lt_irreflexive(x@.name);
            }
        }
    }
    out.insert(p, x);
    proof {
        let n = e.insert(p as int, x@);
        assert(entries(out@) =~= n);
        e.insert_ensures(p as int, x@);
        assert forall|i: int, j: int| 0 <= i < j < n.len() implies name_lt(#[trigger] n[i].name, #[trigger] n[j].name) by {
            if j < p {
            } else if j == p {
            } else if i < p {
                assert(n[j] == e[j - 1]);
                if p < e.len() {
                    lemma_name_lt_trans(e[i].name, x@.name, e[p as int].name);
                }
                if j - 1 > p {
                    lemma_name_lt_trans(e[i].name, e[p as int].name, e[j - 1].name);
                }
            } else if i == p {
                assert(n[j] == e[j - 1]);
                if j - 1 > p {
                    lemma_name_lt_trans(x@.name, e[p as int].name, e[j - 1].name);
                }
            } else {
                assert(n[i] == e[i - 1]);
                assert(n[j] == e[j - 1]);
            }
        }
    }
    Some(p)
}

proof fn lemma_first_push(cands: Seq<AppEntry>, c: AppEntry, e: AppEntry)
    requires
        first_with_name(cands, e),
    ensures
        first_with_name(cands.push(c), e),
{
    let k = choose|k: int|
        0 <= k < cands.len() && #[trigger] cands[k] == e && forall|m: int| 0 <= m < k ==> #[trigger] cands[m].name != e.name;
    let s = cands.push(c);
    assert(s[k] == e);
    assert forall|m: int| 0 <= m < k implies #[trigger] s[m].name != e.name by {
        assert(s[m] == cands[m]);
    }
}

/// Builds the catalog from the files found under the base directories, in
/// the order they were found: each launchable file gives an entry named by
/// its stem; the entries are sorted by name, and of several with one name
/// the first found is kept.
pub fn discover(files: &Vec<FoundFile>, exts: &Vec<String>, excl: &Vec<String>) -> (r: Vec<AppInfo>)
    ensures
        is_catalog(entries(r@)),
        forall|i: int| 0 <= i < r@.len() ==> first_with_name(candidates(files@, exts@, excl@), #[trigger] r@[i]@),
        forall|k: int|
            0 <= k < candidates(files@, exts@, excl@).len() ==> has_name(
                entries(r@),
                #[trigger] candidates(files@, exts@, excl@)[k].name,
            ),
{
    let mut lowered: Vec<String> = Vec::new();
    let mut j: usize = 0;
    while j < excl.len()
        invariant
            j <= excl@.len(),
            lowered@.len() == j,
            forall|m: int| 0 <= m < j ==> #[trigger] lowered@[m]@ == lower_of(excl@[m]@),
        decreases excl.len() - j,
    {
        lowered.push(lowercase(excl[j].as_str()));
        j = j + 1;
    }
    let mut out: Vec<AppInfo> = Vec::new();
    let mut k: usize = 0;
    assert(files@.subrange(0, 0) =~= Seq::<FoundFile>::empty());
    while k < files.len()
        invariant
            k <= files@.len(),
            lowered@.len() == excl@.len(),
            forall|m: int| 0 <= m < excl@.len() ==> #[trigger] lowered@[m]@ == lower_of(excl@[m]@),
            is_catalog(entries(out@)),
            forall|i: int|
                0 <= i < out@.len() ==> first_with_name(
                    candidates(files@.subrange(0, k as int), exts@, excl@),
                    #[trigger] out@[i]@,
                ),
            forall|q: int|
                0 <= q < candidates(files@.subrange(0, k as int), exts@, excl@).len() ==> has_name(
                    entries(out@),
                    #[trigger] candidates(files@.subrange(0, k as int), exts@, excl@)[q].name,
                ),
        decreases files.len() - k,
    {
        let ghost cands = candidates(files@.subrange(0, k as int), exts@, excl@);
        let ghost next = files@.subrange(0, k + 1);
        assert(next.drop_last() =~= files@.subrange(0, k as int));
        assert(next.last() == files@[k as int]);
        let ghost old_out = entries(out@);
        match entry_for(&files[k], exts, Ghost(excl@), &lowered) {
            None => {},
            Some(x) => {
                let ghost c = x@;
                let ghost cands2 = cands.push(c);
                assert(candidates(next, exts@, excl@) == cands2);
                let pos = insert_sorted(&mut out, x);
                proof {
                    let ne = entries(out@);
                    match pos {
                        None => {
                            assert forall|i: int| 0 <= i < out@.len() implies first_with_name(
                                cands2,
                                #[trigger] out@[i]@,
                            ) by {
                                lemma_first_push(cands, c, out@[i]@);
                            }
                            assert forall|q: int| 0 <= q < cands2.len() implies has_name(
                                ne,
                                #[trigger] cands2[q].name,
                            ) by {
                                if q < cands.len() {
                                    assert(cands2[q] == cands[q]);
                                }
                            }
                        },
                        Some(p) => {
                            old_out.insert_ensures(p as int, c);
                            assert forall|m: int| 0 <= m < cands.len() implies #[trigger] cands[m].name != c.name by {
                                assert(has_name(old_out, cands[m].name));
                            }
                            assert(cands2[cands.len() as int] == c);
                            assert(first_with_name(cands2, c));
                            assert forall|i: int| 0 <= i < out@.len() implies first_with_name(
                                cands2,
                                #[trigger] out@[i]@,
                            ) by {
                                assert(ne[i] == out@[i]@);
                                if i < p {
                                    assert(old_out[i] == ne[i]);
                                    lemma_first_push(cands, c, old_out[i]);
                                } else if i > p {
                                    assert(old_out[i - 1] == ne[i]);
                                    lemma_first_push(cands, c, old_out[i - 1]);
                                }
                            }
                            assert forall|q: int| 0 <= q < cands2.len() implies has_name(
                                ne,
                                #[trigger] cands2[q].name,
                            ) by {
                                if q < cands.len() {
                                    assert(cands2[q] == cands[q]);
                                    let t = choose|t: int| 0 <= t < old_out.len() && #[trigger] old_out[t].name == cands[q].name;
                                    if t < p {
                                        assert(ne[t] == old_out[t]);
                                    } else {
                                        assert(ne[t + 1] == old_out[t]);
                                    }
                                } else {
                                    assert(ne[p as int] == c);
                                }
                            }
                        },
                    }
                }
            },
        }
        k = k + 1;
    }
    assert(files@.subrange(0, files@.len() as int) =~= files@);
    out
}

} // verus!
