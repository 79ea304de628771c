use vstd::prelude::*;
use crate::catalog::{entries, is_catalog, AppEntry, AppInfo};
use crate::query::{filter, select};
use crate::selection::Selection;
use crate::text::{lemma_name_lt_trans, lower_of, name_lt};
use vstd::string::StringExecFns;

verus! {

/// What one frame of the launcher decided: the rows to show, the entry to
/// launch if any, and whether to hide the window.
pub struct Frame {
    pub view: Vec<AppInfo>,
    pub launch: Option<AppInfo>,
    pub hide: bool,
}

/// The keys pressed, without modifiers, since the last frame.
#[derive(Clone, Copy, Debug, PartialEq, Eq, Structural)]
pub struct Keys {
    pub down: bool,
    pub up: bool,
    pub enter: bool,
    pub escape: bool,
}

/// The launcher's state: the query being typed, the catalog, and the cursor.
pub struct FerroApp {
    pub search_query: String,
    pub all_apps: Vec<AppInfo>,
    pub selection: Selection,
}

/// The cursor after the movement keys of one frame over `n` rows: down
/// wins where it can move, else up moves, and the result is clamped.
pub open spec fn moved_index(index: int, n: int, keys: Keys) -> int {
    let moved = if keys.down && index + 1 < n {
        index + 1
    } else if keys.up {
        if index > 0 {
            index - 1
        } else {
            0
        }
    } else {
        index
    };
    if n > 0 && moved >= n {
        n - 1
    } else {
        moved
    }
}

/// The names of the sample catalog that a launcher starts with by default.
pub open spec fn sample_names() -> Seq<Seq<char>> {
    seq![
        "Calculator"@,
        "Chrome"@,
        "Firefox"@,
        "Notepad"@,
        "Spotify"@,
        "Steam"@,
        "Terminal"@,
        "VLC Media Player"@,
        "VS Code"@,
        "Visual Studio"@,
        "Word"@,
        "Xbox"@,
        "Zoom"@,
    ]
}

/// Two launchers that differ only in queries that lower-case alike show the
/// same rows and move the cursor alike on the same keys, so they also launch
/// the same entry.
pub proof fn lemma_frame_case_insensitive(c: Seq<AppEntry>, a: Seq<char>, b: Seq<char>, index: int, keys: Keys)
    requires
        lower_of(a) == lower_of(b),
    ensures
        select(c, lower_of(a)) == select(c, lower_of(b)),
        moved_index(index, select(c, lower_of(a)).len() as int, keys) == moved_index(
            index,
            select(c, lower_of(b)).len() as int,
            keys,
        ),
{
}

/// Names that ascend from each neighbour to the next ascend throughout.
proof fn lemma_ascending_neighbours(s: Seq<Seq<char>>)
    requires
        forall|i: int| 0 <= i < s.len() - 1 ==> name_lt(#[trigger] s[i], s[i + 1]),
    ensures
        forall|i: int, j: int| 0 <= i < j < s.len() ==> name_lt(#[trigger] s[i], #[trigger] s[j]),
    decreases s.len(),
{
    if s.len() > 0 {
        let t = s.drop_last();
        assert forall|i: int| 0 <= i < t.len() - 1 implies name_lt(#[trigger] t[i], t[i + 1]) by {
            assert(t[i] == s[i] && t[i + 1] == s[i + 1]);
        }
        lemma_ascending_neighbours(t);
        assert forall|i: int, j: int| 0 <= i < j < s.len() implies name_lt(#[trigger] s[i], #[trigger] s[j]) by {
            if j < s.len() - 1 {
                assert(t[i] == s[i] && t[j] == s[j]);
            } else if i < j - 1 {
                assert(t[i] == s[i] && t[j - 1] == s[j - 1]);
                lemma_name_lt_trans(s[i], s[j - 1], s[j]);
            }
        }
    }
}

/// The sample names ascend in ordinal order.
proof fn lemma_sample_names_sorted()
    ensures
        forall|i: int, j: int|
            0 <= i < j < sample_names().len() ==> name_lt(#[trigger] sample_names()[i], #[trigger] sample_names()[j]),
{
    reveal_with_fuel(name_lt, 3);
    let s = sample_names();
    reveal_strlit("Calculator");
    reveal_strlit("Chrome");
    reveal_strlit("Firefox");
    reveal_strlit("Notepad");
    reveal_strlit("Spotify");
    reveal_strlit("Steam");
    reveal_strlit("Terminal");
    reveal_strlit("VLC Media Player");
    reveal_strlit("VS Code");
    reveal_strlit("Visual Studio");
    reveal_strlit("Word");
    reveal_strlit("Xbox");
    reveal_strlit("Zoom");
    assert(name_lt(s[0], s[1]));
    assert(name_lt(s[1], s[2]));
    assert(name_lt(s[2], s[3]));
    assert(name_lt(s[3], s[4]));
    assert(name_lt(s[4], s[5]));
    assert(name_lt(s[5], s[6]));
    assert(name_lt(s[6], s[7]));
    assert(name_lt(s[7], s[8]));
    assert(name_lt(s[8], s[9]));
    assert(name_lt(s[9], s[10]));
    assert(name_lt(s[10], s[11]));
    assert(name_lt(s[11], s[12]));
    lemma_ascending_neighbours(s);
}

/// A sample entry: a name and no path.
fn sample(name: &str) -> (r: AppInfo)
    ensures
        r.name@ == name@,
        r.path@.len() == 0,
{
    AppInfo { name: String::from_str(name), path: String::new() }
}

impl Default for FerroApp {
    /// A launcher over a sample catalog, with an empty query and the cursor
    /// on top.
    fn default() -> (r: FerroApp)
        ensures
            entries(r.all_apps@).map_values(|e: AppEntry| e.name) == sample_names(),
            is_catalog(entries(r.all_apps@)),
            r.search_query@.len() == 0,
            r.selection.index == 0,
    {
        let all_apps = vec![
            sample("Calculator"),
            sample("Chrome"),
            sample("Firefox"),
            sample("Notepad"),
            sample("Spotify"),
            sample("Steam"),
            sample("Terminal"),
            sample("VLC Media Player"),
            sample("VS Code"),
            sample("Visual Studio"),
            sample("Word"),
            sample("Xbox"),
            sample("Zoom"),
        ];
        let r = FerroApp { search_query: String::new(), all_apps, selection: Selection::new() };
        assert(entries(r.all_apps@).map_values(|e: AppEntry| e.name) =~= sample_names());
        proof {
            lemma_sample_names_sorted();
            let c = entries(r.all_apps@);
            assert forall|i: int, j: int| 0 <= i < j < c.len() implies name_lt(#[trigger] c[i].name, #[trigger] c[j].name) by {
                assert(c[i].name == sample_names()[i]);
                assert(c[j].name == sample_names()[j]);
            }
        }
        r
    }
}

impl FerroApp {
    /// A launcher over `catalog`, with an empty query and the cursor on top.
    pub fn new(catalog: Vec<AppInfo>) -> (r: FerroApp)
        requires
            is_catalog(entries(catalog@)),
        ensures
            r.search_query@.len() == 0,
            r.all_apps@ == catalog@,
            r.selection.index == 0,
    {
        FerroApp { search_query: String::new(), all_apps: catalog, selection: Selection::new() }
    }

    /// Replaces the query text.
    pub fn set_query(&mut self, query: String)
        ensures
            final(self).search_query@ == query@,
            final(self).all_apps@ == old(self).all_apps@,
            final(self).selection == old(self).selection,
    {
        self.search_query = query;
    }

    /// The entries that the current query selects.
    pub fn filtered(&self) -> (r: Vec<AppInfo>)
        ensures
            entries(r@) == select(entries(self.all_apps@), lower_of(self.search_query@)),
            self.search_query@.len() == 0 ==> entries(r@) == entries(self.all_apps@),
    {
        filter(&self.all_apps, self.search_query.as_str())
    }

    /// One frame: filters the catalog by the query, moves the cursor by the
    /// keys and clamps it to the view, then launches the entry under it on
    /// Enter and asks to hide on Escape.
    pub fn update(&mut self, keys: Keys) -> (r: Frame)
        ensures
            entries(r.view@) == select(entries(old(self).all_apps@), lower_of(old(self).search_query@)),
            old(self).search_query@.len() == 0 ==> entries(r.view@) == entries(old(self).all_apps@),
            final(self).selection.index == moved_index(old(self).selection.index as int, r.view@.len() as int, keys),
            r.view@.len() > 0 ==> final(self).selection.index < r.view@.len(),
            keys.enter && final(self).selection.index < r.view@.len() ==> r.launch is Some
                && r.launch->Some_0@ == r.view@[final(self).selection.index as int]@,
            !(keys.enter && final(self).selection.index < r.view@.len()) ==> r.launch is None,
            r.hide == keys.escape,
            final(self).search_query@ == old(self).search_query@,
            final(self).all_apps@ == old(self).all_apps@,
    {
        let view = self.filtered();
        let n = view.len();
        if keys.down && self.selection.index < n && self.selection.index + 1 < n {
            self.selection.move_down(n);
        } else if keys.up {
            self.selection.move_up();
        }
        self.selection.clamp(n);
        let launch = if keys.enter {
            self.selection.activate(&view)
        } else {
            None
        };
        Frame { view, launch, hide: keys.escape }
    }
}

} // verus!
