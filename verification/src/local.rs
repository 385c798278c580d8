//! The local (Mac) side: arranging directory listings, the quick-access
//! locations, and moving items to the Trash.
use vstd::prelude::*;

use crate::error::Error;
use crate::files::{listing_key, EntryView};
use crate::sort::{is_stable_sort, lemma_keyed_sort_views, sort_by_keys, to_deque, with_keys, KeyView, Keyed, SortKey};
use crate::text::{chars_of, lowercase, push_chars, starts_with};

verus! {

/// One entry of a local directory listing.
pub struct LocalEntry {
    pub name: String,
    pub path: String,
    pub size: u64,
    pub mtime: i64,
    pub is_dir: bool,
    pub is_symlink: bool,
}

impl View for LocalEntry {
    type V = EntryView;

    open spec fn view(&self) -> EntryView {
        EntryView {
            name: self.name@,
            path: self.path@,
            size: self.size,
            mtime: self.mtime,
            is_dir: self.is_dir,
            is_symlink: self.is_symlink,
        }
    }
}

/// Dotfiles are hidden, as in Finder's default view.
pub open spec fn is_hidden(name: Seq<char>) -> bool {
    starts_with(name, "."@)
}

/// The entries that are not hidden, in order.
pub open spec fn visible_entries(s: Seq<EntryView>) -> Seq<EntryView>
    decreases s.len(),
{
    if s.len() == 0 {
        Seq::empty()
    } else if is_hidden(s.last().name) {
        visible_entries(s.drop_last())
    } else {
        visible_entries(s.drop_last()).push(s.last())
    }
}

pub open spec fn local_views(s: Seq<LocalEntry>) -> Seq<EntryView> {
    s.map_values(|e: LocalEntry| e@)
}

fn hidden(name: &str) -> (r: bool)
    ensures
        r == is_hidden(name@),
{
    let cs = chars_of(name);
    proof {
        reveal_strlit(".");
    }
    let r = cs.len() > 0 && cs[0] == '.';
    assert("."@ =~= seq!['.']);
    assert(r == starts_with(cs@, "."@)) by {
        if cs.len() > 0 {
            assert(cs@.subrange(0, 1) =~= seq![cs@[0]]);
            if cs@[0] != '.' {
                assert(cs@.subrange(0, 1)[0] != "."@[0]);
            }
        }
    }
    r
}

impl Keyed for LocalEntry {
    open spec fn key_spec(&self) -> KeyView {
        listing_key(self@)
    }

    fn sort_key(&self) -> (k: SortKey) {
        let lower = self.name.as_str().to_lowercase();
        SortKey { first: self.is_dir, name: chars_of(lower.as_str()) }
    }
}

/// A local listing as the left pane shows it: dotfiles dropped, directories
/// first, then by lower-case name, entries with equal keys in their listing
/// order.
pub fn arrange_local_entries(entries: Vec<LocalEntry>) -> (r: Vec<LocalEntry>)
    ensures
        is_stable_sort(
            with_keys(local_views(r@), |e: EntryView| listing_key(e)),
            with_keys(visible_entries(local_views(entries@)), |e: EntryView| listing_key(e)),
        ),
{
    let ghost orig = local_views(entries@);
    let mut rest = to_deque(entries);
    let mut kept: Vec<LocalEntry> = Vec::new();
    let ghost mut k: int = 0;
    assert(orig.take(0) == Seq::<EntryView>::empty());
    assert(local_views(kept@) =~= visible_entries(orig.take(0)));
    assert(local_views(rest@) == orig.skip(0));
    while rest.len() > 0
        invariant
            0 <= k <= orig.len(),
            local_views(rest@) == orig.skip(k),
            rest@.len() == orig.len() - k,
            local_views(kept@) == visible_entries(orig.take(k)),
        decreases rest.len(),
    {
        let ghost old_rest = rest@;
        let e = rest.pop_front().unwrap();
        proof {
            assert(local_views(old_rest)[0] == old_rest[0]@);
            assert(e == old_rest[0]);
            assert(e@ == orig[k]);
            assert(rest@ =~= old_rest.drop_first());
            assert(local_views(rest@) =~= local_views(old_rest).drop_first());
            assert(orig.skip(k).drop_first() =~= orig.skip(k + 1));
            assert(orig.take(k + 1).drop_last() == orig.take(k));
            assert(orig.take(k + 1).last() == orig[k]);
        }
        if !hidden(e.name.as_str()) {
            let ghost before = kept@;
            let ghost ev = e@;
            kept.push(e);
            proof {
                assert(local_views(kept@) =~= local_views(before).push(ev));
            }
        }
        proof {
            k = k + 1;
        }
    }
    assert(orig.take(k) == orig);
    let ghost input = kept@;
    let r = sort_by_keys(kept);
    proof {
        let f = |d: LocalEntry| d@;
        lemma_keyed_sort_views(r@, input, f, |e: EntryView| listing_key(e));
        assert(r@.map_values(f) =~= local_views(r@));
        assert(input.map_values(f) =~= local_views(input));
    }
    r
}

impl Keyed for String {
    open spec fn key_spec(&self) -> KeyView {
        label_key(self@)
    }

    fn sort_key(&self) -> (k: SortKey) {
        let lower = self.as_str().to_lowercase();
        SortKey { first: false, name: chars_of(lower.as_str()) }
    }
}

/// Law: a name is hidden exactly when it starts with `.`.
pub proof fn lemma_hidden_iff_dot(name: Seq<char>)
    ensures
        is_hidden(name) <==> (name.len() > 0 && name[0] == '.'),
{
    reveal_strlit(".");
    assert("."@ =~= seq!['.']);
    if name.len() > 0 {
        assert(name.subrange(0, 1) =~= seq![name[0]]);
        if name[0] != '.' {
            assert(name.subrange(0, 1)[0] != "."@[0]);
        }
    }
}

/// Law: a local listing keeps exactly the entries whose names do not start
/// with `.`: each of them is kept, and whatever is kept is such an entry of
/// the listing.
pub proof fn lemma_visible_entries_keep_undotted(s: Seq<EntryView>)
    ensures
        forall|i: int|
            0 <= i < s.len() && !(s[i].name.len() > 0 && s[i].name[0] == '.') ==> visible_entries(s).contains(
                #[trigger] s[i],
            ),
        forall|e: EntryView|
            #[trigger] visible_entries(s).contains(e) ==> s.contains(e) && !(e.name.len() > 0 && e.name[0] == '.'),
    decreases s.len(),
{
    if s.len() > 0 {
        let init = s.drop_last();
        lemma_visible_entries_keep_undotted(init);
        lemma_hidden_iff_dot(s.last().name);
        let v = visible_entries(s);
        assert forall|i: int|
            0 <= i < s.len() && !(s[i].name.len() > 0 && s[i].name[0] == '.') implies v.contains(#[trigger] s[i]) by {
            if i < s.len() - 1 {
                assert(init[i] == s[i]);
                assert(visible_entries(init).contains(init[i]));
                let k = choose|k: int| 0 <= k < visible_entries(init).len() && visible_entries(init)[k] == init[i];
                assert(v[k] == s[i]);
            } else {
                assert(v.last() == s.last());
            }
        }
        assert forall|e: EntryView| #[trigger] v.contains(e) implies s.contains(e) && !(e.name.len() > 0
            && e.name[0] == '.') by {
            let k = choose|k: int| 0 <= k < v.len() && v[k] == e;
            if is_hidden(s.last().name) || k < v.len() - 1 {
                assert(visible_entries(init)[k] == e);
                assert(visible_entries(init).contains(e));
                let j = choose|j: int| 0 <= j < init.len() && init[j] == e;
                assert(s[j] == e);
            } else {
                assert(e == s.last());
                assert(s[s.len() - 1] == e);
            }
        }
    }
}

/// Law: the volumes listed are exactly those whose names do not start
/// with `.`: each of them is kept, and whatever is kept is such a name of
/// the list.
pub proof fn lemma_visible_names_keep_undotted(s: Seq<Seq<char>>)
    ensures
        forall|i: int| 0 <= i < s.len() && !(s[i].len() > 0 && s[i][0] == '.') ==> visible_names(s).contains(#[trigger] s[i]),
        forall|n: Seq<char>| #[trigger] visible_names(s).contains(n) ==> s.contains(n) && !(n.len() > 0 && n[0] == '.'),
    decreases s.len(),
{
    if s.len() > 0 {
        let init = s.drop_last();
        lemma_visible_names_keep_undotted(init);
        lemma_hidden_iff_dot(s.last());
        let v = visible_names(s);
        assert forall|i: int| 0 <= i < s.len() && !(s[i].len() > 0 && s[i][0] == '.') implies v.contains(#[trigger] s[i]) by {
            if i < s.len() - 1 {
                assert(init[i] == s[i]);
                assert(visible_names(init).contains(init[i]));
                let k = choose|k: int| 0 <= k < visible_names(init).len() && visible_names(init)[k] == init[i];
                assert(v[k] == s[i]);
            } else {
                assert(v.last() == s.last());
            }
        }
        assert forall|n: Seq<char>| #[trigger] v.contains(n) implies s.contains(n) && !(n.len() > 0 && n[0] == '.') by {
            let k = choose|k: int| 0 <= k < v.len() && v[k] == n;
            if is_hidden(s.last()) || k < v.len() - 1 {
                assert(visible_names(init)[k] == n);
                assert(visible_names(init).contains(n));
                let j = choose|j: int| 0 <= j < init.len() && init[j] == n;
                assert(s[j] == n);
            } else {
                assert(n == s.last());
                assert(s[s.len() - 1] == n);
            }
        }
    }
}

/// A quick-access location of the left pane.
pub struct Location {
    pub label: String,
    pub path: String,
}

impl View for Location {
    type V = (Seq<char>, Seq<char>);

    open spec fn view(&self) -> (Seq<char>, Seq<char>) {
        (self.label@, self.path@)
    }
}

/// Volumes are ordered by their lower-case names.
pub open spec fn label_key(name: Seq<char>) -> KeyView {
    (false, lowercase(name))
}

/// The visible volume names, in order.
pub open spec fn visible_names(s: Seq<Seq<char>>) -> Seq<Seq<char>>
    decreases s.len(),
{
    if s.len() == 0 {
        Seq::empty()
    } else if is_hidden(s.last()) {
        visible_names(s.drop_last())
    } else {
        visible_names(s.drop_last()).push(s.last())
    }
}

pub open spec fn string_views(s: Seq<String>) -> Seq<Seq<char>> {
    s.map_values(|x: String| x@)
}

pub open spec fn location_views(s: Seq<Location>) -> Seq<(Seq<char>, Seq<char>)> {
    s.map_values(|l: Location| l@)
}

/// The location of a mounted volume.
pub open spec fn volume_location(name: Seq<char>) -> (Seq<char>, Seq<char>) {
    (name, "/Volumes/"@ + name)
}

/// Quick-access locations for the Mac pane: Home, the whole disk, then
/// every visible volume under /Volumes (USB drives, SD cards, disk images,
/// shares) by lower-case name, names with equal keys in their listing order.
pub fn locations_from(home: &str, volume_names: Vec<String>) -> (r: Vec<Location>)
    ensures
        r@.len() == 2 + visible_names(string_views(volume_names@)).len(),
        r@[0]@ == ("Home"@, home@),
        r@[1]@ == ("Computer"@, "/"@),
        is_stable_sort(
            with_keys(location_views(r@).skip(2).map_values(|l: (Seq<char>, Seq<char>)| l.0), |n: Seq<char>| label_key(n)),
            with_keys(visible_names(string_views(volume_names@)), |n: Seq<char>| label_key(n)),
        ),
        forall|i: int| 2 <= i < r@.len() ==> #[trigger] r@[i]@ == volume_location(r@[i]@.0),
{
    let ghost orig = string_views(volume_names@);
    let mut rest = to_deque(volume_names);
    let mut kept: Vec<String> = Vec::new();
    let ghost mut k: int = 0;
    assert(orig.take(0) == Seq::<Seq<char>>::empty());
    assert(string_views(kept@) =~= visible_names(orig.take(0)));
    assert(string_views(rest@) == orig.skip(0));
    while rest.len() > 0
        invariant
            0 <= k <= orig.len(),
            string_views(rest@) == orig.skip(k),
            rest@.len() == orig.len() - k,
            string_views(kept@) == visible_names(orig.take(k)),
        decreases rest.len(),
    {
        let ghost old_rest = rest@;
        let name = rest.pop_front().unwrap();
        proof {
            assert(string_views(old_rest)[0] == old_rest[0]@);
            assert(name == old_rest[0]);
            assert(name@ == orig[k]);
            assert(rest@ =~= old_rest.drop_first());
            assert(string_views(rest@) =~= string_views(old_rest).drop_first());
            assert(orig.skip(k).drop_first() =~= orig.skip(k + 1));
            assert(orig.take(k + 1).drop_last() == orig.take(k));
            assert(orig.take(k + 1).last() == orig[k]);
        }
        if !hidden(name.as_str()) {
            let ghost before = kept@;
            let ghost nv = name@;
            kept.push(name);
            proof {
                assert(string_views(kept@) =~= string_views(before).push(nv));
            }
        }
        proof {
            k = k + 1;
        }
    }
    assert(orig.take(k) == orig);
    let ghost input = kept@;
    let names = sort_by_keys(kept);
    proof {
        let f = |s: String| s@;
        lemma_keyed_sort_views(names@, input, f, |n: Seq<char>| label_key(n));
        assert(names@.map_values(f) =~= string_views(names@));
        assert(input.map_values(f) =~= string_views(input));
    }
    let mut out: Vec<Location> = Vec::new();
    out.push(Location { label: String::from_str("Home"), path: String::from_str(home) });
    out.push(Location { label: String::from_str("Computer"), path: String::from_str("/") });
    let mut i: usize = 0;
    while i < names.len()
        invariant
            i <= names.len(),
            out@.len() == 2 + i,
            out@[0]@ == ("Home"@, home@),
            out@[1]@ == ("Computer"@, "/"@),
            forall|m: int| 0 <= m < i ==> #[trigger] out@[2 + m]@ == volume_location(names@[m]@),
        decreases names.len() - i,
    {
        let mut path = String::from_str("/Volumes/");
        let nc = chars_of(names[i].as_str());
        push_chars(&mut path, &nc);
        out.push(Location { label: names[i].clone(), path });
        i = i + 1;
    }
    proof {
        let lv = location_views(out@).skip(2).map_values(|l: (Seq<char>, Seq<char>)| l.0);
        assert forall|m: int| 0 <= m < names@.len() implies lv[m] == string_views(names@)[m] by {
            assert(out@[2 + m]@ == volume_location(names@[m]@));
        }
        assert(lv =~= string_views(names@));
        assert forall|m: int| 2 <= m < out@.len() implies #[trigger] out@[m]@ == volume_location(out@[m]@.0) by {
            assert(out@[2 + (m - 2)]@ == volume_location(names@[m - 2]@));
        }
    }
    out
}

/// The text a local path takes inside a double-quoted AppleScript string:
/// each `\` and `"` escaped with a backslash.
pub open spec fn applescript_escaped(s: Seq<char>) -> Seq<char>
    decreases s.len(),
{
    if s.len() == 0 {
        Seq::empty()
    } else {
        applescript_escaped(s.drop_last()) + if s.last() == '\\' {
            seq!['\\', '\\']
        } else if s.last() == '"' {
            seq!['\\', '"']
        } else {
            seq![s.last()]
        }
    }
}

/// The AppleScript that asks Finder to move a path to the Trash, so that
/// deletes stay reversible.
pub open spec fn trash_script_text(path: Seq<char>) -> Seq<char> {
    "tell application \"Finder\" to delete POSIX file \""@ + applescript_escaped(path) + "\""@
}

/// The AppleScript that moves a local path to the Trash via Finder.
pub fn trash_script(path: &str) -> (r: String)
    ensures
        r@ == trash_script_text(path@),
{
    let cs = chars_of(path);
    let mut out = String::from_str("tell application \"Finder\" to delete POSIX file \"");
    let ghost start = out@;
    let mut i: usize = 0;
    while i < cs.len()
        invariant
            i <= cs.len(),
            cs@ == path@,
            out@ == start + applescript_escaped(cs@.take(i as int)),
        decreases cs.len() - i,
    {
        proof {
            assert(cs@.take(i + 1).drop_last() == cs@.take(i as int));
        }
        let c = cs[i];
        if c == '\\' {
            out.push('\\');
            out.push('\\');
        } else if c == '"' {
            out.push('\\');
            out.push('"');
        } else {
            out.push(c);
        }
        i = i + 1;
    }
    assert(cs@.take(cs.len() as int) == cs@);
    proof {
        reveal_strlit("\"");
    }
    out.push('"');
    out
}

/// The error when Finder could not move a path to the Trash.
pub fn trash_failure(path: &str) -> (e: Error)
    ensures
        e matches Error::Other(m) && m@ == "could not move "@ + path@ + " to Trash"@,
{
    Error::Other(String::from_str("could not move ").concat(path).concat(" to Trash"))
}

} // verus!
