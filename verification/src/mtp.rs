//! What the MTP backend decides on its own: storage names, the folder that
//! a listing starts from, and the order of listed objects.
use vstd::prelude::*;

use crate::sort::{is_stable_sort, lemma_keyed_sort_views, sort_by_keys, with_keys, KeyView, Keyed, SortKey};
use crate::text::{chars_of, lowercase};

verus! {

/// A storage of the device (internal storage, SD card, ...).
pub struct Storage {
    pub id: u32,
    pub description: String,
    pub max_capacity: u64,
    pub free_bytes: u64,
}

/// An object of an MTP listing.
pub struct Entry {
    pub id: u32,
    pub name: String,
    pub size: u64,
    pub mtime: i64,
    pub is_dir: bool,
}

pub struct MtpEntryView {
    pub id: u32,
    pub name: Seq<char>,
    pub size: u64,
    pub mtime: i64,
    pub is_dir: bool,
}

impl View for Entry {
    type V = MtpEntryView;

    open spec fn view(&self) -> MtpEntryView {
        MtpEntryView { id: self.id, name: self.name@, size: self.size, mtime: self.mtime, is_dir: self.is_dir }
    }
}

/// The MTP file type of folders.
pub const FILETYPE_FOLDER: i32 = 0;

/// The parent id that stands for the root of a storage.
pub const PARENT_ROOT: u32 = 0xffff_ffff;

/// Is an object of this MTP file type a folder?
pub fn is_folder_type(filetype: i32) -> (r: bool)
    ensures
        r == (filetype == 0),
{
    filetype == FILETYPE_FOLDER
}

/// The folder a listing starts from: parent id 0 stands for the storage
/// root.
pub fn listing_parent(parent_id: u32) -> (r: u32)
    ensures
        r == (if parent_id == 0 { 0xffff_ffffu32 } else { parent_id }),
{
    if parent_id == 0 {
        PARENT_ROOT
    } else {
        parent_id
    }
}

pub open spec fn digit_char(d: nat) -> char {
    if d == 0 {
        '0'
    } else if d == 1 {
        '1'
    } else if d == 2 {
        '2'
    } else if d == 3 {
        '3'
    } else if d == 4 {
        '4'
    } else if d == 5 {
        '5'
    } else if d == 6 {
        '6'
    } else if d == 7 {
        '7'
    } else if d == 8 {
        '8'
    } else {
        '9'
    }
}

/// The decimal digits of a number, without leading zeros.
pub open spec fn decimal(n: nat) -> Seq<char>
    decreases n,
{
    if n < 10 {
        seq![digit_char(n)]
    } else {
        decimal(n / 10).push(digit_char(n % 10))
    }
}

proof fn lemma_digit_char(d: nat)
    requires
        d < 10,
    ensures
        crate::text::is_digit(digit_char(d)),
        ((digit_char(d) as u32) - 0x30) as nat == d,
{
}

/// The decimal digits of `n` are ASCII digits, the first not a `+`, and
/// read back as `n`.
pub proof fn lemma_decimal_value(n: nat)
    ensures
        decimal(n).len() > 0,
        crate::text::all_digits(decimal(n)),
        crate::text::digits_value(decimal(n)) == n,
    decreases n,
{
    if n < 10 {
        lemma_digit_char(n);
        assert(decimal(n).drop_last() =~= Seq::<char>::empty());
        assert(crate::text::digits_value(decimal(n).drop_last()) == 0);
    } else {
        lemma_decimal_value(n / 10);
        lemma_digit_char(n % 10);
        let s = decimal(n);
        assert(s.drop_last() == decimal(n / 10));
        assert(s.last() == digit_char(n % 10));
        assert((n / 10) * 10 + n % 10 == n) by (nonlinear_arith);
        assert forall|i: int| 0 <= i < s.len() implies crate::text::is_digit(#[trigger] s[i]) by {
            if i < s.len() - 1 {
                assert(s[i] == decimal(n / 10)[i]);
            }
        }
    }
}

fn digit_exec(d: u64) -> (c: char)
    requires
        d < 10,
    ensures
        c == digit_char(d as nat),
{
    if d == 0 {
        '0'
    } else if d == 1 {
        '1'
    } else if d == 2 {
        '2'
    } else if d == 3 {
        '3'
    } else if d == 4 {
        '4'
    } else if d == 5 {
        '5'
    } else if d == 6 {
        '6'
    } else if d == 7 {
        '7'
    } else if d == 8 {
        '8'
    } else {
        '9'
    }
}

/// The decimal digits of a number.
pub fn decimal_digits(n: u64) -> (r: Vec<char>)
    ensures
        r@ == decimal(n as nat),
    decreases n,
{
    if n < 10 {
        let mut v: Vec<char> = Vec::new();
        v.push(digit_exec(n));
        assert(v@ =~= seq![digit_char(n as nat)]);
        v
    } else {
        let mut v = decimal_digits(n / 10);
        v.push(digit_exec(n % 10));
        v
    }
}

/// The name shown for a storage: its description, or "Storage <id>" where
/// it has none.
pub open spec fn storage_name(description: Seq<char>, id: u32) -> Seq<char> {
    if description.len() == 0 {
        "Storage "@ + decimal(id as nat)
    } else {
        description
    }
}

/// The name shown for a storage.
pub fn storage_label(description: &str, id: u32) -> (r: String)
    ensures
        r@ == storage_name(description@, id),
{
    let d = chars_of(description);
    if d.len() == 0 {
        let mut s = String::from_str("Storage ");
        crate::text::push_chars(&mut s, &decimal_digits(id as u64));
        s
    } else {
        String::from_str(description)
    }
}

/// Folders first, then names in the order of their lower-case forms.
pub open spec fn mtp_key(e: MtpEntryView) -> KeyView {
    (e.is_dir, lowercase(e.name))
}

pub open spec fn mtp_views(s: Seq<Entry>) -> Seq<MtpEntryView> {
    s.map_values(|e: Entry| e@)
}

impl Keyed for Entry {
    open spec fn key_spec(&self) -> KeyView {
        mtp_key(self@)
    }

    fn sort_key(&self) -> (k: SortKey) {
        let lower = self.name.as_str().to_lowercase();
        SortKey { first: self.is_dir, name: chars_of(lower.as_str()) }
    }
}

/// A listing in display order: folders first, then by lower-case name,
/// entries with equal keys in their listing order.
pub fn sort_mtp_entries(entries: Vec<Entry>) -> (r: Vec<Entry>)
    ensures
        is_stable_sort(
            with_keys(mtp_views(r@), |e: MtpEntryView| mtp_key(e)),
            with_keys(mtp_views(entries@), |e: MtpEntryView| mtp_key(e)),
        ),
{
    let ghost input = entries@;
    let r = sort_by_keys(entries);
    proof {
        let f = |d: Entry| d@;
        lemma_keyed_sort_views(r@, input, f, |e: MtpEntryView| mtp_key(e));
        assert(r@.map_values(f) =~= mtp_views(r@));
        assert(input.map_values(f) =~= mtp_views(input));
    }
    r
}

// ---------------------------------------------------------------------------
// The device probe's report
// ---------------------------------------------------------------------------

/// How many entries of the root listing the probe shows.
pub const PROBE_SHOWN: usize = 40;

/// How many folders the probe searches for a file to pull.
pub const PROBE_FOLDERS: usize = 6;

/// `s` right-aligned in a field of `width` characters.
pub open spec fn padded_left(s: Seq<char>, width: nat) -> Seq<char> {
    if s.len() >= width {
        s
    } else {
        Seq::new((width - s.len()) as nat, |i: int| ' ') + s
    }
}

pub open spec fn kind_tag(is_dir: bool) -> Seq<char> {
    if is_dir {
        "[DIR ]"@
    } else {
        "[file]"@
    }
}

/// One line of the probe's listing: kind, size right-aligned in 12
/// columns, name.
pub open spec fn entry_line_text(e: MtpEntryView) -> Seq<char> {
    "  "@ + kind_tag(e.is_dir) + " "@ + padded_left(decimal(e.size as nat), 12) + "  "@ + e.name + "\n"@
}

pub open spec fn entry_lines_text(s: Seq<MtpEntryView>) -> Seq<char>
    decreases s.len(),
{
    if s.len() == 0 {
        Seq::empty()
    } else {
        entry_lines_text(s.drop_last()) + entry_line_text(s.last())
    }
}

/// The probe's account of a storage's root: its name, how many entries it
/// holds, and the first of them.
pub open spec fn root_report_text(description: Seq<char>, s: Seq<MtpEntryView>) -> Seq<char> {
    "\nRoot of \""@ + description + "\" ("@ + decimal(s.len()) + " entries):\n"@ + entry_lines_text(
        s.take(if s.len() < PROBE_SHOWN { s.len() as int } else { PROBE_SHOWN as int }),
    )
}

/// The line of the probe's listing for one entry.
pub fn entry_line(e: &Entry) -> (r: String)
    ensures
        r@ == entry_line_text(e@),
{
    let mut s = String::from_str("  ");
    if e.is_dir {
        s.append("[DIR ]");
    } else {
        s.append("[file]");
    }
    s.append(" ");
    let ghost pre = s@;
    let digits = decimal_digits(e.size);
    let n = digits.len();
    let mut k: usize = n;
    assert(Seq::new(0, |i: int| ' ') =~= Seq::<char>::empty());
    assert(s@ =~= pre + Seq::new((k - n) as nat, |i: int| ' '));
    while k < 12
        invariant
            n <= k,
            k <= 12 || k == n,
            s@ == pre + Seq::new((k - n) as nat, |i: int| ' '),
        decreases 12 - k,
    {
        s.push(' ');
        k = k + 1;
        assert(Seq::new((k - n) as nat, |i: int| ' ') =~= Seq::new((k - 1 - n) as nat, |i: int| ' ').push(' '));
    }
    crate::text::push_chars(&mut s, &digits);
    assert(s@ =~= pre + padded_left(decimal(e.size as nat), 12));
    s.append("  ");
    s.append(e.name.as_str());
    s.append("\n");
    s
}

/// The probe's account of a storage's root listing.
pub fn root_report(description: &str, entries: &Vec<Entry>) -> (r: String)
    ensures
        r@ == root_report_text(description@, mtp_views(entries@)),
{
    let ghost vs = mtp_views(entries@);
    let mut s = String::from_str("\nRoot of \"");
    s.append(description);
    s.append("\" (");
    crate::text::push_chars(&mut s, &decimal_digits(entries.len() as u64));
    s.append(" entries):\n");
    let ghost head = s@;
    let shown = if entries.len() < PROBE_SHOWN {
        entries.len()
    } else {
        PROBE_SHOWN
    };
    let mut i: usize = 0;
    assert(entry_lines_text(vs.take(0)) =~= Seq::<char>::empty());
    assert(s@ =~= head + entry_lines_text(vs.take(0)));
    while i < shown
        invariant
            i <= shown <= entries@.len(),
            vs == mtp_views(entries@),
            s@ == head + entry_lines_text(vs.take(i as int)),
        decreases shown - i,
    {
        let line = entry_line(&entries[i]);
        s.append(line.as_str());
        proof {
            assert(vs.take(i + 1).drop_last() =~= vs.take(i as int));
            assert(vs.take(i + 1).last() == entries@[i as int]@);
        }
        i = i + 1;
    }
    s
}

/// A file the probe can pull: not a folder, and with `nonempty` not empty
/// either.
pub open spec fn pull_candidate(e: MtpEntryView, nonempty: bool) -> bool {
    !e.is_dir && (!nonempty || e.size > 0)
}

/// The first entry of a listing that the probe can pull.
pub fn first_pull_candidate(entries: &Vec<Entry>, nonempty: bool) -> (r: Option<usize>)
    ensures
        match r {
            Some(i) => i < entries@.len() && pull_candidate(entries@[i as int]@, nonempty) && forall|j: int|
                0 <= j < i ==> !pull_candidate(#[trigger] entries@[j]@, nonempty),
            None => forall|j: int| 0 <= j < entries@.len() ==> !pull_candidate(#[trigger] entries@[j]@, nonempty),
        },
{
    let mut i: usize = 0;
    while i < entries.len()
        invariant
            i <= entries@.len(),
            forall|j: int| 0 <= j < i ==> !pull_candidate(#[trigger] entries@[j]@, nonempty),
        decreases entries.len() - i,
    {
        if !entries[i].is_dir && (!nonempty || entries[i].size > 0) {
            return Some(i);
        }
        i = i + 1;
    }
    None
}

/// The ids of the folders of a listing, in order.
pub open spec fn folder_ids(s: Seq<MtpEntryView>) -> Seq<u32>
    decreases s.len(),
{
    if s.len() == 0 {
        Seq::empty()
    } else if s.last().is_dir {
        folder_ids(s.drop_last()).push(s.last().id)
    } else {
        folder_ids(s.drop_last())
    }
}

/// At most the first `PROBE_FOLDERS` of a list of folder ids.
pub open spec fn first_folders(d: Seq<u32>) -> Seq<u32> {
    d.take(if d.len() < PROBE_FOLDERS { d.len() as int } else { PROBE_FOLDERS as int })
}

/// The folders the probe searches, in listing order, for a file to pull.
pub fn probe_folders(entries: &Vec<Entry>) -> (r: Vec<u32>)
    ensures
        r@ == first_folders(folder_ids(mtp_views(entries@))),
{
    let ghost vs = mtp_views(entries@);
    let mut out: Vec<u32> = Vec::new();
    let mut i: usize = 0;
    assert(folder_ids(vs.take(0)) =~= Seq::<u32>::empty());
    while i < entries.len()
        invariant
            i <= entries@.len(),
            vs == mtp_views(entries@),
            out@ == first_folders(folder_ids(vs.take(i as int))),
        decreases entries.len() - i,
    {
        proof {
            assert(vs.take(i + 1).drop_last() =~= vs.take(i as int));
            assert(vs.take(i + 1).last() == entries@[i as int]@);
        }
        let ghost d = folder_ids(vs.take(i as int));
        if entries[i].is_dir {
            if out.len() < PROBE_FOLDERS {
                out.push(entries[i].id);
            }
            proof {
                assert(first_folders(d.push(entries@[i as int].id)) =~= if d.len() < PROBE_FOLDERS {
                    first_folders(d).push(entries@[i as int].id)
                } else {
                    first_folders(d)
                });
            }
        }
        i = i + 1;
    }
    assert(vs.take(entries@.len() as int) =~= vs);
    out
}

/// `i` is the first entry of the listing that the probe can pull.
pub open spec fn first_candidate_at(s: Seq<Entry>, nonempty: bool, i: int) -> bool {
    &&& 0 <= i < s.len()
    &&& pull_candidate(s[i]@, nonempty)
    &&& forall|j: int| 0 <= j < i ==> !pull_candidate(#[trigger] s[j]@, nonempty)
}

/// The listing holds a file the probe can pull.
pub open spec fn has_candidate(s: Seq<Entry>, nonempty: bool) -> bool {
    exists|i: int| 0 <= i < s.len() && pull_candidate(#[trigger] s[i]@, nonempty)
}

/// What the probe does next while it looks for a file to pull.
pub enum PullSearch {
    /// Pull this file.
    Pull { id: u32, name: String, size: u64 },
    /// List this folder and hand its listing to the next step.
    List(u32),
    /// There is no file to pull.
    NoFile,
}

/// `r` pulls the first candidate of the listing.
pub open spec fn pulls_first(r: PullSearch, s: Seq<Entry>, nonempty: bool) -> bool {
    exists|i: int|
        first_candidate_at(s, nonempty, i) && (r matches PullSearch::Pull { id, name, size } && id == s[i].id
            && name@ == s[i].name@ && size == s[i].size)
}

/// The folders the probe searches, and how many of them it has listed.
pub struct PullSearchState {
    pub folders: Vec<u32>,
    pub next: usize,
}

fn pull_of(s: &Vec<Entry>, i: usize, nonempty: bool) -> (r: PullSearch)
    requires
        first_candidate_at(s@, nonempty, i as int),
    ensures
        pulls_first(r, s@, nonempty),
{
    let r = PullSearch::Pull { id: s[i].id, name: s[i].name.clone(), size: s[i].size };
    assert(first_candidate_at(s@, nonempty, i as int));
    r
}

/// The probe's search for a file to pull starts at the root listing: its
/// first file if it has one; else the first of its first folders, in
/// listing order, is listed next.
pub fn begin_pull_search(root: &Vec<Entry>) -> (r: (PullSearch, PullSearchState))
    ensures
        has_candidate(root@, false) ==> pulls_first(r.0, root@, false),
        !has_candidate(root@, false) ==> ({
            let fs = first_folders(folder_ids(mtp_views(root@)));
            &&& r.1.folders@ == fs
            &&& fs.len() > 0 ==> (r.0 matches PullSearch::List(f) && f == fs[0] && r.1.next == 1)
            &&& fs.len() == 0 ==> (r.0 is NoFile && r.1.next == 0)
        }),
{
    match first_pull_candidate(root, false) {
        Some(i) => {
            let step = pull_of(root, i, false);
            (step, PullSearchState { folders: Vec::new(), next: 0 })
        },
        None => {
            let folders = probe_folders(root);
            if folders.len() > 0 {
                let f = folders[0];
                (PullSearch::List(f), PullSearchState { folders, next: 1 })
            } else {
                (PullSearch::NoFile, PullSearchState { folders, next: 0 })
            }
        },
    }
}

/// One step of the search, given the listing of the folder listed last
/// (`None` where listing it failed): its first non-empty file if it has
/// one; else the next folder, while any is left; else no file.
pub fn pull_search_step(st: &mut PullSearchState, listing: Option<Vec<Entry>>) -> (r: PullSearch)
    ensures
        final(st).folders@ == old(st).folders@,
        (listing matches Some(k) && has_candidate(k@, true)) ==> pulls_first(r, listing->0@, true)
            && final(st).next == old(st).next,
        !(listing matches Some(k) && has_candidate(k@, true)) ==> (if old(st).next < old(st).folders@.len() {
            r matches PullSearch::List(f) && f == old(st).folders@[old(st).next as int] && final(st).next
                == old(st).next + 1
        } else {
            r is NoFile && final(st).next == old(st).next
        }),
{
    if let Some(kids) = &listing {
        if let Some(i) = first_pull_candidate(kids, true) {
            return pull_of(kids, i, true);
        }
    }
    if st.next < st.folders.len() {
        let f = st.folders[st.next];
        st.next = st.next + 1;
        PullSearch::List(f)
    } else {
        PullSearch::NoFile
    }
}

/// The first line of the probe's report.
pub fn storage_count_line(n: usize) -> (r: String)
    ensures
        r@ == "Found "@ + decimal(n as nat) + " storage(s):\n"@,
{
    let mut s = String::from_str("Found ");
    crate::text::push_chars(&mut s, &decimal_digits(n as u64));
    s.append(" storage(s):\n");
    s
}

/// The line that announces the pull of a file.
pub fn pull_test_line(name: &str, size: u64) -> (r: String)
    ensures
        r@ == "\nPull test: \""@ + name@ + "\" ("@ + decimal(size as nat) + " bytes)…\n"@,
{
    let mut s = String::from_str("\nPull test: \"");
    s.append(name);
    s.append("\" (");
    crate::text::push_chars(&mut s, &decimal_digits(size));
    s.append(" bytes)…\n");
    s
}

/// The line after a pull: how many bytes arrived where, and whether that
/// is the size the device reported.
pub fn pull_done_line(got: u64, dest: &str, expected: u64) -> (r: String)
    ensures
        r@ == "  downloaded "@ + decimal(got as nat) + " bytes -> "@ + dest@ + " ("@ + (if got == expected {
            "SIZE OK"@
        } else {
            "size mismatch"@
        }) + ")\n"@,
{
    let mut s = String::from_str("  downloaded ");
    crate::text::push_chars(&mut s, &decimal_digits(got));
    s.append(" bytes -> ");
    s.append(dest);
    s.append(" (");
    if got == expected {
        s.append("SIZE OK");
    } else {
        s.append("size mismatch");
    }
    s.append(")\n");
    s
}

/// The line after a failed pull.
pub fn pull_failed_line(err: &str) -> (r: String)
    ensures
        r@ == "  pull failed: "@ + err@ + "\n"@,
{
    let mut s = String::from_str("  pull failed: ");
    s.append(err);
    s.append("\n");
    s
}

/// The line when no file was found to pull.
pub fn no_pull_file_line() -> (r: String)
    ensures
        r@ == "\n(no files found to test a pull)\n"@,
{
    String::from_str("\n(no files found to test a pull)\n")
}

} // verus!
