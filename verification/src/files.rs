//! Device-side directory listings and storage volumes.
use vstd::prelude::*;

use crate::sort::{is_stable_sort, lemma_keyed_sort_views, sort_by_keys, with_keys, KeyView, Keyed, SortKey};
use crate::text::{
    char_is_hex_digit, chars_eq, is_hex_digit, push_chars, words, words_exec,
    base_name, chars_of, lemma_last_index_concat, contains_chars, contains_seq, last_index, last_index_of, lowercase,
    parse_i64, parse_i64_spec, parse_u64, parse_unsigned, slice_chars, split_chars, split_on,
    string_of, trim_chars, trim_end_char, trim_end_chars, trim_white, views,
};

verus! {

/// One entry of a device directory listing.
pub struct DirEntry {
    pub name: String,
    pub path: String,
    pub size: u64,
    /// Unix epoch seconds.
    pub mtime: i64,
    pub is_dir: bool,
    pub is_symlink: bool,
}

/// What a listing entry holds.
pub struct EntryView {
    pub name: Seq<char>,
    pub path: Seq<char>,
    pub size: u64,
    pub mtime: i64,
    pub is_dir: bool,
    pub is_symlink: bool,
}

impl View for DirEntry {
    type V = EntryView;

    open spec fn view(&self) -> EntryView {
        EntryView {
            name: self.name@,
            path: self.path@,
            size: self.size,
            mtime: self.mtime,
            is_dir: self.is_dir,
            is_symlink: self.is_symlink,
        }
    }
}

/// The lines of a `stat` listing: split at `\n`, each without its trailing
/// carriage returns.
pub open spec fn listing_lines(out: Seq<char>) -> Seq<Seq<char>> {
    split_on(out, '\n').map_values(|l: Seq<char>| trim_end_char(l, '\r'))
}

/// A number field of the listing: the value, or 0 where it does not parse.
pub open spec fn size_field(s: Seq<char>) -> u64 {
    match parse_unsigned(trim_white(s), u64::MAX as nat) {
        Some(v) => v as u64,
        None => 0,
    }
}

pub open spec fn mtime_field(s: Seq<char>) -> i64 {
    match parse_i64_spec(trim_white(s)) {
        Some(v) => v as i64,
        None => 0,
    }
}

/// The entry that one line `path|size|mtime|type` stands for. The three
/// fields on the right are cut at the last three `|`, so the path may itself
/// hold `|`; a line with fewer than three `|` stands for no entry.
pub open spec fn entry_of_line(l: Seq<char>) -> Option<EntryView> {
    match last_index_of(l, '|') {
        None => None,
        Some(p3) => match last_index_of(l.take(p3), '|') {
            None => None,
            Some(p2) => match last_index_of(l.take(p2), '|') {
                None => None,
                Some(p1) => {
                    let full = l.take(p1);
                    let ftype = l.skip(p3 + 1);
                    Some(
                        EntryView {
                            name: base_name(full),
                            path: full,
                            size: size_field(l.subrange(p1 + 1, p2)),
                            mtime: mtime_field(l.subrange(p2 + 1, p3)),
                            is_dir: contains_seq(ftype, "directory"@),
                            is_symlink: contains_seq(ftype, "symbolic link"@),
                        },
                    )
                },
            },
        },
    }
}

/// Law: the three fields on the right are cut at the last three `|`, so a
/// path that holds `|` comes back whole.
pub proof fn lemma_bar_in_path_kept(
    path: Seq<char>,
    size: Seq<char>,
    mtime: Seq<char>,
    ftype: Seq<char>,
)
    requires
        !size.contains('|'),
        !mtime.contains('|'),
        !ftype.contains('|'),
    ensures
        entry_of_line(path + seq!['|'] + size + seq!['|'] + mtime + seq!['|'] + ftype) == Some(
            EntryView {
                name: base_name(path),
                path: path,
                size: size_field(size),
                mtime: mtime_field(mtime),
                is_dir: contains_seq(ftype, "directory"@),
                is_symlink: contains_seq(ftype, "symbolic link"@),
            },
        ),
{
    let l2 = path + seq!['|'] + size + seq!['|'] + mtime;
    let l1 = path + seq!['|'] + size;
    let l = l2 + seq!['|'] + ftype;
    lemma_last_index_concat(l2, '|', ftype);
    let p3 = l2.len() as int;
    assert(l.take(p3) == l2);
    lemma_last_index_concat(l1, '|', mtime);
    let p2 = l1.len() as int;
    assert(l2.take(p2) == l1);
    lemma_last_index_concat(path, '|', size);
    let p1 = path.len() as int;
    assert(l1.take(p1) == path);
    assert(l.take(p2) == l1);
    assert(l.take(p1) == path);
    assert(l.subrange(p1 + 1, p2) == size);
    assert(l.subrange(p2 + 1, p3) == mtime);
    assert(l.skip(p3 + 1) == ftype);
}

proof fn lemma_digits_untrimmed(s: Seq<char>)
    requires
        s.len() > 0,
        crate::text::all_digits(s),
    ensures
        trim_white(s) == s,
{
    assert(crate::text::is_digit(s[0]));
    assert(crate::text::is_digit(s.last()));
    assert(crate::text::trim_start_white(s) == s);
    assert(crate::text::trim_end_white(s) == s);
}

/// Law: a size field is read as a `u64`: the decimal digits of any `n`
/// read back as `n`, however large.
pub proof fn lemma_size_field_reads_u64(n: u64)
    ensures
        size_field(crate::mtp::decimal(n as nat)) == n,
{
    let d = crate::mtp::decimal(n as nat);
    crate::mtp::lemma_decimal_value(n as nat);
    lemma_digits_untrimmed(d);
    assert(crate::text::is_digit(d[0]));
}

/// Law: a time field is read as an `i64`: the decimal digits of any `n` up
/// to `i64::MAX` read back as `n`, and with a `-` before them as `-n`, down
/// to `i64::MIN`.
pub proof fn lemma_mtime_field_reads_i64(n: u64)
    ensures
        n <= 0x7fff_ffff_ffff_ffff ==> mtime_field(crate::mtp::decimal(n as nat)) == n,
        n <= 0x8000_0000_0000_0000 ==> mtime_field(seq!['-'] + crate::mtp::decimal(n as nat)) == -(n as int),
{
    let d = crate::mtp::decimal(n as nat);
    crate::mtp::lemma_decimal_value(n as nat);
    lemma_digits_untrimmed(d);
    assert(crate::text::is_digit(d[0]));
    let m = seq!['-'] + d;
    assert(m[0] == '-');
    assert(m.last() == d.last());
    assert(crate::text::is_digit(d.last()));
    assert(crate::text::trim_start_white(m) == m);
    assert(crate::text::trim_end_white(m) == m);
    assert(m.drop_first() == d);
}

/// Law: the line `path|n|mtime|type` of a listing stands for the entry of
/// that path with size `n`, for every `n: u64`; so does a listing made of
/// that line alone (ended by a newline).
pub proof fn lemma_listed_size(path: Seq<char>, n: u64, mtime: Seq<char>, ftype: Seq<char>)
    requires
        !path.contains('\n'),
        !mtime.contains('|'),
        !mtime.contains('\n'),
        !ftype.contains('|'),
        !ftype.contains('\n'),
        !ftype.contains('\r'),
    ensures
        ({
            let line = path + seq!['|'] + crate::mtp::decimal(n as nat) + seq!['|'] + mtime + seq!['|'] + ftype;
            &&& entry_of_line(line) matches Some(e) && e.path == path && e.size == n
            &&& stat_entries(line + seq!['\n']).len() == 1
            &&& stat_entries(line + seq!['\n'])[0].path == path
            &&& stat_entries(line + seq!['\n'])[0].size == n
        }),
{
    let d = crate::mtp::decimal(n as nat);
    crate::mtp::lemma_decimal_value(n as nat);
    assert(!d.contains('|')) by {
        if d.contains('|') {
            let k = choose|k: int| 0 <= k < d.len() && d[k] == '|';
            assert(crate::text::is_digit(d[k]));
        }
    }
    lemma_size_field_reads_u64(n);
    lemma_bar_in_path_kept(path, d, mtime, ftype);
    let line = path + seq!['|'] + d + seq!['|'] + mtime + seq!['|'] + ftype;
    assert(!line.contains('\n')) by {
        if line.contains('\n') {
            let k = choose|k: int| 0 <= k < line.len() && line[k] == '\n';
            let a = path.len() as int;
            let b = a + 1 + d.len();
            let c = b + 1 + mtime.len();
            if k < a {
                assert(path[k] == '\n');
            } else if a < k < b {
                assert(d[k - a - 1] == '\n');
                assert(crate::text::is_digit(d[k - a - 1]));
            } else if b < k < c {
                assert(mtime[k - b - 1] == '\n');
            } else if c < k {
                assert(ftype[k - c - 1] == '\n');
            }
        }
    }
    assert(line.last() != '\r') by {
        if ftype.len() > 0 {
            assert(line.last() == ftype.last());
            assert(ftype.contains(ftype.last()));
        }
    }
    let e = Seq::<char>::empty();
    crate::adb::lemma_split_on_append(e, line, '\n');
    assert(split_on(e, '\n') == seq![e]);
    assert(e + line == line);
    assert(split_on(line, '\n') == seq![line]);
    let full = line + seq!['\n'];
    assert(full.drop_last() == line);
    assert(split_on(full, '\n') == seq![line, e]);
    assert(trim_end_char(line, '\r') == line);
    assert(trim_end_char(e, '\r') == e);
    let lines = listing_lines(full);
    assert(lines =~= seq![line, e]);
    assert(lines.drop_last() =~= seq![line]);
    assert(seq![line].drop_last() =~= Seq::<Seq<char>>::empty());
    assert(line.len() > 0);
    assert(entries_of_lines(seq![line].drop_last()) == Seq::<EntryView>::empty());
    assert(seq![line].last() == line);
    assert(entries_of_lines(seq![line]) =~= seq![entry_of_line(line).unwrap()]);
}

/// The entries of the non-empty lines, in line order.
pub open spec fn entries_of_lines(lines: Seq<Seq<char>>) -> Seq<EntryView>
    decreases lines.len(),
{
    if lines.len() == 0 {
        Seq::empty()
    } else {
        let prev = entries_of_lines(lines.drop_last());
        let l = lines.last();
        if l.len() > 0 && entry_of_line(l) is Some {
            prev.push(entry_of_line(l).unwrap())
        } else {
            prev
        }
    }
}

/// The entries of a listing, in line order.
pub open spec fn stat_entries(out: Seq<char>) -> Seq<EntryView> {
    entries_of_lines(listing_lines(out))
}

/// Directories first, then names in the order of their lower-case forms.
pub open spec fn listing_key(e: EntryView) -> KeyView {
    (e.is_dir, lowercase(e.name))
}

pub open spec fn with_listing_keys(s: Seq<EntryView>) -> Seq<(KeyView, EntryView)> {
    s.map_values(|e: EntryView| (listing_key(e), e))
}

pub open spec fn entry_views(s: Seq<DirEntry>) -> Seq<EntryView> {
    s.map_values(|e: DirEntry| e@)
}

/// Reads one line of the listing.
fn parse_stat_line(l: &[char]) -> (r: Option<DirEntry>)
    ensures
        match entry_of_line(l@) {
            Some(v) => r is Some && r.unwrap()@ == v,
            None => r is None,
        },
{
    proof {
        crate::text::lemma_last_index_bound(l@, '|');
    }
    let p3 = match last_index(l, '|') {
        Some(p) => p,
        None => return None,
    };
    let head3 = slice_chars(l, 0, p3);
    assert(head3@ == l@.take(p3 as int));
    proof {
        crate::text::lemma_last_index_bound(head3@, '|');
    }
    let p2 = match last_index(&head3, '|') {
        Some(p) => p,
        None => return None,
    };
    let head2 = slice_chars(&head3, 0, p2);
    assert(head2@ == l@.take(p2 as int));
    proof {
        crate::text::lemma_last_index_bound(head2@, '|');
    }
    let p1 = match last_index(&head2, '|') {
        Some(p) => p,
        None => return None,
    };
    let full = slice_chars(l, 0, p1);
    let size_s = trim_chars(&slice_chars(l, p1 + 1, p2));
    let mtime_s = trim_chars(&slice_chars(l, p2 + 1, p3));
    let ftype = slice_chars(l, p3 + 1, l.len());
    assert(ftype@ == l@.skip(p3 + 1));
    let size = match parse_u64(&size_s) {
        Some(v) => v,
        None => 0,
    };
    let mtime = match parse_i64(&mtime_s) {
        Some(v) => v,
        None => 0,
    };
    let is_dir = contains_chars(&ftype, &chars_of("directory"));
    let is_symlink = contains_chars(&ftype, &chars_of("symbolic link"));
    let name = crate::text::base_name_exec(&full);
    Some(DirEntry {
        name: string_of(&name),
        path: string_of(&full),
        size,
        mtime,
        is_dir,
        is_symlink,
    })
}

impl Keyed for DirEntry {
    open spec fn key_spec(&self) -> KeyView {
        listing_key(self@)
    }

    fn sort_key(&self) -> (k: SortKey) {
        let lower = self.name.as_str().to_lowercase();
        SortKey { first: self.is_dir, name: chars_of(lower.as_str()) }
    }
}

/// Parses the output of `stat -c '%n|%s|%Y|%F'` for every entry of a
/// directory: one entry per non-empty line that holds at least three `|`,
/// ordered directories first, then by lower-case name, lines with equal keys
/// in their listing order.
pub fn parse_stat_lines(out: &str) -> (r: Vec<DirEntry>)
    ensures
        is_stable_sort(with_listing_keys(entry_views(r@)), with_listing_keys(stat_entries(out@))),
{
    let cs = chars_of(out);
    let pieces = split_chars(&cs, '\n');
    let ghost lines = listing_lines(out@);
    assert(views(pieces@) == split_on(out@, '\n'));
    assert forall|m: int| 0 <= m < pieces.len() implies #[trigger] lines[m] == trim_end_char(pieces@[m]@, '\r') by {
        assert(views(pieces@)[m] == pieces@[m]@);
    }
    assert(lines.take(0) == Seq::<Seq<char>>::empty());
    let mut entries: Vec<DirEntry> = Vec::new();
    assert(entry_views(entries@) =~= entries_of_lines(lines.take(0)));
    let mut i: usize = 0;
    while i < pieces.len()
        invariant
            i <= pieces.len(),
            lines.len() == pieces.len(),
            forall|m: int| 0 <= m < pieces.len() ==> #[trigger] lines[m] == trim_end_char(pieces@[m]@, '\r'),
            entry_views(entries@) == entries_of_lines(lines.take(i as int)),
        decreases pieces.len() - i,
    {
        let ghost before = entries@;
        proof {
            assert(lines.take(i + 1).drop_last() == lines.take(i as int));
            assert(lines.take(i + 1).last() == lines[i as int]);
        }
        let line = trim_end_chars(&pieces[i], '\r');
        if line.len() > 0 {
            match parse_stat_line(&line) {
                Some(e) => {
                    let ghost ev = e@;
                    entries.push(e);
                    proof {
                        assert(entry_views(entries@) =~= entry_views(before).push(ev));
                    }
                },
                None => {},
            }
        }
        i = i + 1;
    }
    assert(lines.take(pieces.len() as int) == lines);
    let ghost input = entries@;
    let r = sort_by_keys(entries);
    proof {
        let f = |d: DirEntry| d@;
        let key = |e: EntryView| listing_key(e);
        lemma_keyed_sort_views(r@, input, f, key);
        assert(r@.map_values(f) =~= entry_views(r@));
        assert(input.map_values(f) =~= entry_views(input));
        assert(with_listing_keys(stat_entries(out@)) =~= with_keys(stat_entries(out@), key));
        assert(with_listing_keys(entry_views(r@)) =~= with_keys(entry_views(r@), key));
    }
    r
}

/// A user-visible storage volume of the device.
pub struct Volume {
    pub label: String,
    pub path: String,
}

pub struct VolumeView {
    pub label: Seq<char>,
    pub path: Seq<char>,
}

impl View for Volume {
    type V = VolumeView;

    open spec fn view(&self) -> VolumeView {
        VolumeView { label: self.label@, path: self.path@ }
    }
}

/// Volume ids look like `ABCD-1234`: nine characters, a `-` in the middle,
/// hexadecimal digits around it.
pub open spec fn is_volume_id(n: Seq<char>) -> bool {
    &&& n.len() == 9
    &&& n[4] == '-'
    &&& forall|i: int| 0 <= i < 9 && i != 4 ==> is_hex_digit(#[trigger] n[i])
}

pub open spec fn volume_of_name(n: Seq<char>) -> VolumeView {
    VolumeView {
        label: if is_volume_id(n) { "SD card"@ } else { n },
        path: "/storage/"@ + n,
    }
}

/// The volumes named by the words of a listing of /storage, in order,
/// without the `emulated` and `self` aliases.
pub open spec fn volumes_of_names(ns: Seq<Seq<char>>) -> Seq<VolumeView>
    decreases ns.len(),
{
    if ns.len() == 0 {
        Seq::empty()
    } else {
        let prev = volumes_of_names(ns.drop_last());
        let n = ns.last();
        if n.len() == 0 || n == "emulated"@ || n == "self"@ {
            prev
        } else {
            prev.push(volume_of_name(n))
        }
    }
}

pub open spec fn volume_views(s: Seq<Volume>) -> Seq<VolumeView> {
    s.map_values(|v: Volume| v@)
}

fn is_volume_id_exec(n: &[char]) -> (r: bool)
    ensures
        r == is_volume_id(n@),
{
    if n.len() != 9 || n[4] != '-' {
        return false;
    }
    let mut i: usize = 0;
    while i < 9
        invariant
            i <= 9,
            n@.len() == 9,
            forall|m: int| 0 <= m < i && m != 4 ==> is_hex_digit(#[trigger] n@[m]),
        decreases 9 - i,
    {
        if i != 4 && !char_is_hex_digit(n[i]) {
            return false;
        }
        i = i + 1;
    }
    true
}

/// The storage volumes of a device: internal storage, then every volume
/// that `ls /storage` printed (an SD card's id is shown as "SD card").
pub fn volumes_from_listing(out: &str) -> (r: Vec<Volume>)
    ensures
        volume_views(r@) == seq![VolumeView { label: "Internal storage"@, path: "/sdcard"@ }]
            + volumes_of_names(words(out@)),
{
    let mut vols: Vec<Volume> = Vec::new();
    vols.push(Volume { label: String::from_str("Internal storage"), path: String::from_str("/sdcard") });
    let cs = chars_of(out);
    let names = words_exec(&cs);
    let ghost ns = words(out@);
    let emulated = chars_of("emulated");
    let self_name = chars_of("self");
    let mut i: usize = 0;
    assert(ns.take(0) == Seq::<Seq<char>>::empty());
    assert(volume_views(vols@) =~= seq![VolumeView { label: "Internal storage"@, path: "/sdcard"@ }]
        + volumes_of_names(ns.take(0)));
    while i < names.len()
        invariant
            i <= names.len(),
            views(names@) == ns,
            emulated@ == "emulated"@,
            self_name@ == "self"@,
            volume_views(vols@) == seq![VolumeView { label: "Internal storage"@, path: "/sdcard"@ }]
                + volumes_of_names(ns.take(i as int)),
        decreases names.len() - i,
    {
        proof {
            assert(ns.take(i + 1).drop_last() == ns.take(i as int));
            assert(ns.take(i + 1).last() == names@[i as int]@);
        }
        let n = &names[i];
        if !(n.len() == 0 || chars_eq(n, &emulated) || chars_eq(n, &self_name)) {
            let label = if is_volume_id_exec(n) {
                String::from_str("SD card")
            } else {
                string_of(n)
            };
            let mut path = String::from_str("/storage/");
            push_chars(&mut path, n);
            let ghost before = vols@;
            vols.push(Volume { label, path });
            assert(volume_views(vols@) =~= volume_views(before).push(volume_of_name(n@)));
        }
        i = i + 1;
    }
    assert(ns.take(names.len() as int) == ns);
    vols
}

} // verus!
