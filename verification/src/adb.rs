//! The rules around adb commands: which device paths may be touched, how
//! arguments are quoted for the device shell, which commands are sent, and
//! how a finished command is read.
use vstd::prelude::*;

use crate::error::Error;
use crate::text::{
    chars_eq, chars_of, count_char, count_chars, decode_lossy, has_prefix, lemma_split_on_nonempty,
    push_chars, slice_chars, split_chars, split_on, starts_with, string_of, trim_chars, trim_end_char,
    trim_end_chars, trim_white, utf8_lossy, views,
};

verus! {

// ---------------------------------------------------------------------------
// Quoting for the device shell
// ---------------------------------------------------------------------------

/// How one character appears inside a single-quoted word: a quote closes
/// the word, is given escaped, and the word is reopened.
pub open spec fn quote_piece(c: char) -> Seq<char> {
    if c == '\'' {
        seq!['\'', '\\', '\'', '\'']
    } else {
        seq![c]
    }
}

pub open spec fn quote_body(s: Seq<char>) -> Seq<char>
    decreases s.len(),
{
    if s.len() == 0 {
        Seq::empty()
    } else {
        quote_body(s.drop_last()) + quote_piece(s.last())
    }
}

/// `s` as one single-quoted shell word.
pub open spec fn shell_quoted(s: Seq<char>) -> Seq<char> {
    seq!['\''] + quote_body(s) + seq!['\'']
}

/// Quotes a string for safe inclusion in a single `adb shell "<cmd>"`
/// argument: adb joins shell arguments with spaces and the device re-parses
/// them, so the string is wrapped in single quotes and each embedded single
/// quote is written `'\''`.
pub fn shell_quote(s: &str) -> (r: String)
    ensures
        r@ == shell_quoted(s@),
{
    let cs = chars_of(s);
    let mut out = String::new();
    out.push('\'');
    let mut i: usize = 0;
    while i < cs.len()
        invariant
            i <= cs.len(),
            cs@ == s@,
            out@ == seq!['\''] + quote_body(cs@.take(i as int)),
        decreases cs.len() - i,
    {
        proof {
            assert(cs@.take(i + 1).drop_last() == cs@.take(i as int));
        }
        if cs[i] == '\'' {
            out.push('\'');
            out.push('\\');
            out.push('\'');
            out.push('\'');
        } else {
            out.push(cs[i]);
        }
        i = i + 1;
    }
    assert(cs@.take(cs.len() as int) == cs@);
    out.push('\'');
    out
}

/// How a POSIX shell reads one word made of single-quoted parts and
/// backslash-escaped characters (`quoted`: inside single quotes). Any other
/// unquoted character is outside what this reader covers.
pub open spec fn read_shell_word(t: Seq<char>, quoted: bool) -> Option<Seq<char>>
    decreases t.len(),
{
    if t.len() == 0 {
        if quoted {
            None
        } else {
            Some(Seq::empty())
        }
    } else if quoted {
        if t[0] == '\'' {
            read_shell_word(t.drop_first(), false)
        } else {
            match read_shell_word(t.drop_first(), true) {
                Some(r) => Some(seq![t[0]] + r),
                None => None,
            }
        }
    } else if t[0] == '\'' {
        read_shell_word(t.drop_first(), true)
    } else if t[0] == '\\' && t.len() >= 2 {
        match read_shell_word(t.skip(2), false) {
            Some(r) => Some(seq![t[1]] + r),
            None => None,
        }
    } else {
        None
    }
}

proof fn lemma_quote_body_prepend(c: char, s: Seq<char>)
    ensures
        quote_body(seq![c] + s) == quote_piece(c) + quote_body(s),
    decreases s.len(),
{
    if s.len() == 0 {
        assert(seq![c] + s == seq![c]);
        assert(seq![c].drop_last() == Seq::<char>::empty());
        assert(quote_body(Seq::<char>::empty()) + quote_piece(c) == quote_piece(c));
        assert(quote_piece(c) + Seq::<char>::empty() == quote_piece(c));
    } else {
        lemma_quote_body_prepend(c, s.drop_last());
        assert((seq![c] + s).drop_last() == seq![c] + s.drop_last());
        assert((seq![c] + s).last() == s.last());
        assert(quote_piece(c) + quote_body(s.drop_last()) + quote_piece(s.last()) == quote_piece(c) + (
        quote_body(s.drop_last()) + quote_piece(s.last())));
    }
}

proof fn lemma_read_quoted_body(s: Seq<char>)
    ensures
        read_shell_word(quote_body(s) + seq!['\''], true) == Some(s),
    decreases s.len(),
{
    if s.len() == 0 {
        let t = quote_body(s) + seq!['\''];
        assert(quote_body(s) == Seq::<char>::empty());
        assert(t == seq!['\'']);
        assert(t[0] == '\'');
        assert(t.drop_first() == Seq::<char>::empty());
        assert(read_shell_word(t.drop_first(), false) == Some(Seq::<char>::empty()));
        assert(s == Seq::<char>::empty());
    } else {
        let c = s[0];
        let rest = s.drop_first();
        assert(s == seq![c] + rest);
        lemma_quote_body_prepend(c, rest);
        lemma_read_quoted_body(rest);
        let tail = quote_body(rest) + seq!['\''];
        let t = quote_body(s) + seq!['\''];
        assert(t == quote_piece(c) + tail);
        if c == '\'' {
            let u = t.drop_first();
            assert(t[0] == '\'');
            assert(u == seq!['\\', '\'', '\''] + tail);
            assert(read_shell_word(t, true) == read_shell_word(u, false));
            let v = u.skip(2);
            assert(v == seq!['\''] + tail);
            assert(u[0] == '\\');
            assert(u[1] == '\'');
            assert(v[0] == '\'');
            assert(v.drop_first() == tail);
            assert(read_shell_word(v, false) == read_shell_word(tail, true));
            assert(read_shell_word(u, false) == Some(seq!['\''] + rest));
        } else {
            assert(t[0] == c);
            assert(t.drop_first() == tail);
            assert(read_shell_word(t, true) == Some(seq![c] + rest));
        }
    }
}

/// Law: a quoted string, read back by the device shell as one word, is the
/// string itself.
pub proof fn lemma_shell_quote_roundtrip(s: Seq<char>)
    ensures
        read_shell_word(shell_quoted(s), false) == Some(s),
{
    lemma_read_quoted_body(s);
    let t = shell_quoted(s);
    assert(t.drop_first() == quote_body(s) + seq!['\'']);
}

/// Characters a shell takes literally outside quotes: ASCII letters and
/// digits and `-_./,:+@%`.
pub open spec fn plain_shell_char(c: char) -> bool {
    ||| ('a' <= c && c <= 'z')
    ||| ('A' <= c && c <= 'Z')
    ||| ('0' <= c && c <= '9')
    ||| c == '-' || c == '_' || c == '.' || c == '/' || c == ',' || c == ':' || c == '+' || c == '@' || c == '%'
}

/// `w` followed by the words `o` holds, if it holds any.
pub open spec fn prepend_words(w: Seq<Seq<char>>, o: Option<Seq<Seq<char>>>) -> Option<Seq<Seq<char>>> {
    match o {
        Some(ws) => Some(w + ws),
        None => None,
    }
}

/// How a POSIX shell splits the rest `t` of a command line into words:
/// words are separated by spaces and made of plain characters, single-quoted
/// parts and backslash-escaped characters. `quoted`: inside single quotes;
/// `in_word`: a word has begun, and `cur` is what it holds so far. `None`
/// for a line with an unclosed quote or an unquoted character outside this
/// reader.
pub open spec fn split_shell_line(t: Seq<char>, quoted: bool, in_word: bool, cur: Seq<char>) -> Option<
    Seq<Seq<char>>,
>
    decreases t.len(),
{
    if t.len() == 0 {
        if quoted {
            None
        } else if in_word {
            Some(seq![cur])
        } else {
            Some(Seq::empty())
        }
    } else if quoted {
        if t[0] == '\'' {
            split_shell_line(t.drop_first(), false, true, cur)
        } else {
            split_shell_line(t.drop_first(), true, true, cur.push(t[0]))
        }
    } else if t[0] == ' ' {
        if in_word {
            prepend_words(seq![cur], split_shell_line(t.drop_first(), false, false, Seq::empty()))
        } else {
            split_shell_line(t.drop_first(), false, false, Seq::empty())
        }
    } else if t[0] == '\'' {
        split_shell_line(t.drop_first(), true, true, cur)
    } else if t[0] == '\\' && t.len() >= 2 {
        split_shell_line(t.skip(2), false, true, cur.push(t[1]))
    } else if plain_shell_char(t[0]) {
        split_shell_line(t.drop_first(), false, true, cur.push(t[0]))
    } else {
        None
    }
}

/// The words a shell reads in a command line.
pub open spec fn shell_words(t: Seq<char>) -> Option<Seq<Seq<char>>> {
    split_shell_line(t, false, false, Seq::empty())
}

proof fn lemma_split_quoted_body(s: Seq<char>, rest: Seq<char>, w: Seq<char>)
    ensures
        split_shell_line(quote_body(s) + seq!['\''] + rest, true, true, w) == split_shell_line(rest, false, true, w + s),
    decreases s.len(),
{
    let t = quote_body(s) + seq!['\''] + rest;
    if s.len() == 0 {
        assert(quote_body(s) == Seq::<char>::empty());
        assert(t == seq!['\''] + rest);
        assert(t.drop_first() == rest);
        assert(w + s == w);
        assert(split_shell_line(t, true, true, w) == split_shell_line(rest, false, true, w));
    } else {
        let c = s[0];
        let r = s.drop_first();
        assert(s == seq![c] + r);
        lemma_quote_body_prepend(c, r);
        let tail = quote_body(r) + seq!['\''] + rest;
        assert(t == quote_piece(c) + tail);
        if c == '\'' {
            lemma_split_quoted_body(r, rest, w.push('\''));
            let u = t.drop_first();
            assert(t[0] == '\'');
            assert(u == seq!['\\', '\'', '\''] + tail);
            assert(u[0] == '\\' && u[1] == '\'');
            let v = u.skip(2);
            assert(v == seq!['\''] + tail);
            assert(v[0] == '\'');
            assert(v.drop_first() == tail);
            assert(w.push('\'') + r == w + s);
            assert(split_shell_line(v, false, true, w.push('\'')) == split_shell_line(tail, true, true, w.push('\'')));
            assert(split_shell_line(u, false, true, w) == split_shell_line(v, false, true, w.push('\'')));
            assert(split_shell_line(t, true, true, w) == split_shell_line(u, false, true, w));
        } else {
            lemma_split_quoted_body(r, rest, w.push(c));
            assert(t[0] == c);
            assert(t.drop_first() == tail);
            assert(w.push(c) + r == w + s);
            assert(split_shell_line(t, true, true, w) == split_shell_line(tail, true, true, w.push(c)));
        }
    }
}

/// A quoted word, where no word has begun, is read as the string itself,
/// and the word goes on into what follows.
proof fn lemma_split_quoted(s: Seq<char>, rest: Seq<char>)
    ensures
        split_shell_line(shell_quoted(s) + rest, false, false, Seq::empty()) == split_shell_line(rest, false, true, s),
{
    let t = shell_quoted(s) + rest;
    lemma_split_quoted_body(s, rest, Seq::empty());
    assert(t[0] == '\'');
    assert(t.drop_first() == quote_body(s) + seq!['\''] + rest);
    assert(Seq::<char>::empty() + s == s);
}

/// Plain characters, where a word may have begun, go on the word.
proof fn lemma_split_plain(p: Seq<char>, rest: Seq<char>, in_word: bool, w: Seq<char>)
    requires
        p.len() > 0,
        forall|i: int| 0 <= i < p.len() ==> plain_shell_char(#[trigger] p[i]),
    ensures
        split_shell_line(p + rest, false, in_word, w) == split_shell_line(rest, false, true, w + p),
    decreases p.len(),
{
    let t = p + rest;
    assert(t[0] == p[0]);
    assert(t.drop_first() == p.drop_first() + rest);
    if p.len() == 1 {
        assert(p.drop_first() + rest == rest);
        assert(w.push(p[0]) == w + p);
    } else {
        lemma_split_plain(p.drop_first(), rest, true, w.push(p[0]));
        assert(w.push(p[0]) + p.drop_first() == w + p);
    }
}

/// A space ends the word that has begun.
proof fn lemma_split_space(rest: Seq<char>, w: Seq<char>)
    ensures
        split_shell_line(" "@ + rest, false, true, w) == prepend_words(seq![w], shell_words(rest)),
{
    reveal_strlit(" ");
    let t = " "@ + rest;
    assert(t[0] == ' ');
    assert(t.drop_first() == rest);
}

proof fn lemma_split_joined(ps: Seq<Seq<char>>, rest: Seq<char>)
    requires
        ps.len() >= 1,
    ensures
        shell_words(join_quoted(ps) + rest) == prepend_words(ps.drop_last(), split_shell_line(rest, false, true, ps.last())),
    decreases ps.len(),
{
    if ps.len() == 1 {
        lemma_split_quoted(ps[0], rest);
        let o = split_shell_line(rest, false, true, ps.last());
        assert(ps.drop_last() == Seq::<Seq<char>>::empty());
        if let Some(ws) = o {
            assert(Seq::<Seq<char>>::empty() + ws == ws);
        }
    } else {
        let init = ps.drop_last();
        let last = ps.last();
        let rest2 = " "@ + shell_quoted(last) + rest;
        assert(join_quoted(ps) + rest == join_quoted(init) + rest2);
        lemma_split_joined(init, rest2);
        lemma_split_space(shell_quoted(last) + rest, init.last());
        assert(" "@ + (shell_quoted(last) + rest) == rest2);
        lemma_split_quoted(last, rest);
        let o = split_shell_line(rest, false, true, last);
        if let Some(ws) = o {
            assert(init.drop_last() + (seq![init.last()] + ws) == ps.drop_last() + ws);
        }
    }
}

/// The quoted paths, joined, are read as the paths themselves, in order.
proof fn lemma_joined_words(ps: Seq<Seq<char>>, rest: Seq<char>)
    requires
        ps.len() >= 1,
    ensures
        shell_words(join_quoted(ps)) == Some(ps),
        shell_words(join_quoted(ps) + " "@ + rest) == prepend_words(ps, shell_words(rest)),
{
    lemma_split_joined(ps, Seq::empty());
    assert(join_quoted(ps) + Seq::<char>::empty() == join_quoted(ps));
    assert(ps.drop_last() + seq![ps.last()] == ps);
    lemma_split_joined(ps, " "@ + rest);
    assert(join_quoted(ps) + " "@ + rest == join_quoted(ps) + (" "@ + rest));
    lemma_split_space(rest, ps.last());
    let o = shell_words(rest);
    if let Some(ws) = o {
        assert(ps.drop_last() + (seq![ps.last()] + ws) == ps + ws);
    }
}

// ---------------------------------------------------------------------------
// Device paths
// ---------------------------------------------------------------------------

/// Device file operations are confined to /sdcard and /storage.
pub open spec fn in_device_storage(p: Seq<char>) -> bool {
    ||| p == "/sdcard"@
    ||| p == "/storage"@
    ||| starts_with(p, "/sdcard/"@)
    ||| starts_with(p, "/storage/"@)
}

/// Some `/`-separated segment of `p` is `..`.
pub open spec fn has_parent_segment(p: Seq<char>) -> bool {
    split_on(p, '/').contains(".."@)
}

/// The outcome of `validate_device_path` for `p`: `None` where the path is
/// accepted, else the message of the `InvalidPath` error.
pub open spec fn device_path_problem(p: Seq<char>) -> Option<Seq<char>> {
    if !in_device_storage(p) {
        Some(p + " is outside allowed device storage"@)
    } else if has_parent_segment(p) {
        Some("path traversal not allowed"@)
    } else {
        None
    }
}

/// `r` is `Ok` where `problem` is `None`, else the `InvalidPath` error with
/// that message.
pub open spec fn path_result(r: Result<(), Error>, problem: Option<Seq<char>>) -> bool {
    match problem {
        None => r is Ok,
        Some(m) => r matches Err(Error::InvalidPath(e)) && e@ == m,
    }
}

fn any_parent_segment(segs: &Vec<Vec<char>>) -> (r: bool)
    ensures
        r == views(segs@).contains(".."@),
{
    let dots = chars_of("..");
    let mut i: usize = 0;
    while i < segs.len()
        invariant
            i <= segs.len(),
            dots@ == ".."@,
            forall|m: int| 0 <= m < i ==> segs@[m]@ != ".."@,
        decreases segs.len() - i,
    {
        if chars_eq(&segs[i], &dots) {
            assert(views(segs@)[i as int] == ".."@);
            return true;
        }
        i = i + 1;
    }
    assert forall|m: int| 0 <= m < views(segs@).len() implies views(segs@)[m] != ".."@ by {
        assert(views(segs@)[m] == segs@[m]@);
    }
    false
}

fn string_concat(a: &str, b: &str) -> (r: String)
    ensures
        r@ == a@ + b@,
{
    String::from_str(a).concat(b)
}

/// Rejects paths that leave the user-visible storage area or climb with
/// `..`.
pub fn validate_device_path(path: &str) -> (r: Result<(), Error>)
    ensures
        path_result(r, device_path_problem(path@)),
{
    let cs = chars_of(path);
    let inside = chars_eq(&cs, &chars_of("/sdcard")) || chars_eq(&cs, &chars_of("/storage"))
        || has_prefix(&cs, &chars_of("/sdcard/")) || has_prefix(&cs, &chars_of("/storage/"));
    if !inside {
        return Err(Error::InvalidPath(string_concat(path, " is outside allowed device storage")));
    }
    let segs = split_chars(&cs, '/');
    if any_parent_segment(&segs) {
        return Err(Error::InvalidPath(String::from_str("path traversal not allowed")));
    }
    Ok(())
}

/// The segments of a path that name something: empty ones (from doubled or
/// trailing slashes) and `.` are left out.
pub open spec fn named_segments(ps: Seq<Seq<char>>) -> Seq<Seq<char>>
    decreases ps.len(),
{
    if ps.len() == 0 {
        Seq::empty()
    } else {
        let prev = named_segments(ps.drop_last());
        let s = ps.last();
        if s.len() == 0 || s == "."@ {
            prev
        } else {
            prev.push(s)
        }
    }
}

/// A storage root: /sdcard, /storage, or a volume right under /storage
/// (such as an SD card, /storage/ABCD-1234), with any trailing slashes.
pub open spec fn is_storage_root(p: Seq<char>) -> bool {
    let segs = named_segments(split_on(p, '/'));
    segs.len() < 2 || (segs[0] == "storage"@ && segs.len() < 3)
}

/// The outcome of `check_deletable` for `p`.
pub open spec fn deletable_problem(p: Seq<char>) -> Option<Seq<char>> {
    match device_path_problem(p) {
        Some(m) => Some(m),
        None => if is_storage_root(p) {
            Some("refusing to delete a storage root: "@ + p)
        } else {
            None
        },
    }
}

fn storage_root(cs: &[char]) -> (r: bool)
    ensures
        r == is_storage_root(cs@),
{
    let parts = split_chars(cs, '/');
    let ghost ps = views(parts@);
    let dot = chars_of(".");
    let storage = chars_of("storage");
    let mut segs: Vec<Vec<char>> = Vec::new();
    let mut i: usize = 0;
    assert(ps.take(0) == Seq::<Seq<char>>::empty());
    assert(views(segs@) =~= named_segments(ps.take(0)));
    while i < parts.len()
        invariant
            i <= parts.len(),
            ps == views(parts@),
            dot@ == "."@,
            views(segs@) == named_segments(ps.take(i as int)),
        decreases parts.len() - i,
    {
        proof {
            assert(ps.take(i + 1).drop_last() == ps.take(i as int));
            assert(ps.take(i + 1).last() == parts@[i as int]@);
        }
        let part = &parts[i];
        if !(part.len() == 0 || chars_eq(part, &dot)) {
            let ghost before = segs@;
            let copy = slice_chars(part, 0, part.len());
            assert(copy@ == part@);
            segs.push(copy);
            proof {
                crate::text::lemma_views_push(before, segs@.last());
                assert(segs@ == before.push(segs@.last()));
            }
        }
        i = i + 1;
    }
    assert(ps.take(parts.len() as int) == ps);
    proof {
        if segs@.len() > 0 {
            assert(views(segs@)[0] == segs@[0]@);
        }
    }
    segs.len() < 2 || (chars_eq(&segs[0], &storage) && segs.len() < 3)
}

/// A path is safe to delete when it is a valid device path and not a
/// storage root.
pub fn check_deletable(path: &str) -> (r: Result<(), Error>)
    ensures
        path_result(r, deletable_problem(path@)),
{
    match validate_device_path(path) {
        Err(e) => return Err(e),
        Ok(()) => {},
    }
    let cs = chars_of(path);
    if storage_root(&cs) {
        return Err(Error::InvalidPath(string_concat("refusing to delete a storage root: ", path)));
    }
    Ok(())
}

/// Splitting after text without the separator only extends the last piece.
pub proof fn lemma_split_on_append(x: Seq<char>, n: Seq<char>, sep: char)
    requires
        !n.contains(sep),
    ensures
        split_on(x + n, sep) == split_on(x, sep).update(
            split_on(x, sep).len() - 1,
            split_on(x, sep).last() + n,
        ),
    decreases n.len(),
{
    crate::text::lemma_split_on_nonempty(x, sep);
    let sx = split_on(x, sep);
    if n.len() == 0 {
        assert(x + n == x);
        assert(sx.last() + n == sx.last());
        assert(sx.update(sx.len() - 1, sx.last()) =~= sx);
    } else {
        let m = n.drop_last();
        assert(!m.contains(sep)) by {
            if m.contains(sep) {
                let k = choose|k: int| 0 <= k < m.len() && m[k] == sep;
                assert(n[k] == sep);
            }
        }
        lemma_split_on_append(x, m, sep);
        assert((x + n).drop_last() == x + m);
        assert((x + n).last() == n.last());
        assert(n.last() != sep) by {
            assert(n[n.len() - 1] == n.last());
        }
        let sm = split_on(x + m, sep);
        assert(sm.last() == sx.last() + m);
        assert(sx.last() + m + seq![n.last()] == sx.last() + n) by {
            assert(m.push(n.last()) == n);
        }
        assert(sm.last().push(n.last()) == sx.last() + n);
    }
}

/// Law: whatever may be deleted is a valid device path and no storage root;
/// /sdcard, /storage and every volume right under /storage (with or without
/// a trailing slash) are refused.
pub proof fn lemma_deletable_is_valid(p: Seq<char>, name: Seq<char>)
    requires
        !name.contains('/'),
    ensures
        deletable_problem(p) is None ==> device_path_problem(p) is None && !is_storage_root(p),
        deletable_problem("/sdcard"@) is Some,
        deletable_problem("/storage"@) is Some,
        deletable_problem("/storage/"@ + name) is Some,
        deletable_problem("/storage/"@ + name + "/"@) is Some,
{
    reveal_strlit("/storage/");
    reveal_strlit("storage");
    reveal_strlit("/");
    reveal_strlit(".");
    let st = "storage"@;
    let e = Seq::<char>::empty();
    assert(!st.contains('/')) by {
        assert(st =~= seq!['s', 't', 'o', 'r', 'a', 'g', 'e']);
    }
    // "/" splits into two empty pieces.
    let slash = seq!['/'];
    assert(slash.drop_last() == e);
    assert(split_on(e, '/') == seq![e]);
    assert(split_on(slash, '/') == seq![e, e]);
    // "/storage"
    lemma_split_on_append(slash, st, '/');
    assert(seq![e, e].update(1, e + st) =~= seq![e, st]);
    assert(split_on(slash + st, '/') == seq![e, st]);
    // "/storage/"
    let pre = slash + st + slash;
    assert(pre == "/storage/"@);
    assert(pre.drop_last() == slash + st);
    assert(split_on(pre, '/') == seq![e, st].push(e));
    // "/storage/<name>"
    lemma_split_on_append(pre, name, '/');
    let full = pre + name;
    assert(seq![e, st, e].update(2, e + name) =~= seq![e, st, name]);
    assert(split_on(full, '/') == seq![e, st, name]);
    let with_slash = full + "/"@;
    assert(with_slash.drop_last() == full);
    assert(with_slash.last() == '/');
    assert(split_on(with_slash, '/') == seq![e, st, name, e]);
    // The named segments start with "storage" and are at most two.
    let three = seq![e, st, name];
    assert(three.drop_last() == seq![e, st]);
    assert(seq![e, st].drop_last() == seq![e]);
    assert(seq![e].drop_last() == Seq::<Seq<char>>::empty());
    assert(st != "."@) by {
        assert(st.len() != "."@.len());
    }
    assert(seq![e].last() == e);
    assert(named_segments(Seq::<Seq<char>>::empty()) == Seq::<Seq<char>>::empty());
    assert(seq![e].len() == 1);
    assert(named_segments(seq![e]) == named_segments(Seq::<Seq<char>>::empty()));
    assert(named_segments(seq![e]) == Seq::<Seq<char>>::empty());
    assert(named_segments(seq![e, st]) == seq![st]);
    assert(named_segments(three).len() <= 2);
    assert(named_segments(three)[0] == st);
    let four = seq![e, st, name, e];
    assert(four.drop_last() == three);
    assert(named_segments(four) == named_segments(three));
    assert(is_storage_root(full));
    assert(is_storage_root(with_slash));
    // "/storage" and "/sdcard"
    assert(slash + st == "/storage"@) by {
        reveal_strlit("/storage");
    }
    assert(is_storage_root("/storage"@));
    reveal_strlit("/sdcard");
    reveal_strlit("sdcard");
    let sd = "sdcard"@;
    assert(!sd.contains('/')) by {
        assert(sd =~= seq!['s', 'd', 'c', 'a', 'r', 'd']);
    }
    lemma_split_on_append(slash, sd, '/');
    assert(seq![e, e].update(1, e + sd) =~= seq![e, sd]);
    assert(slash + sd == "/sdcard"@);
    assert(sd != "."@) by {
        assert(sd.len() != "."@.len());
    }
    assert(seq![e, sd].drop_last() == seq![e]);
    assert(named_segments(seq![e, sd]) == seq![sd]);
    assert(is_storage_root("/sdcard"@));
}

// ---------------------------------------------------------------------------
// Commands sent to the device
// ---------------------------------------------------------------------------

/// The device directory named with exactly one trailing slash, so that
/// `find` follows a symlinked start point such as /sdcard.
pub open spec fn listing_dir(p: Seq<char>) -> Seq<char> {
    trim_end_char(p, '/') + "/"@
}

/// The shell command that lists a device directory: one
/// `path|size|mtime|type` line per entry.
pub open spec fn list_dir_cmd(p: Seq<char>) -> Seq<char> {
    "find "@ + shell_quoted(listing_dir(p))
        + " -maxdepth 1 -mindepth 1 -exec stat -c '%n|%s|%Y|%F' {} + 2>/dev/null"@
}

/// `r` is `Ok` with the given text where `problem` is `None`, else the
/// `InvalidPath` error with that message.
pub open spec fn command_result(r: Result<String, Error>, problem: Option<Seq<char>>, cmd: Seq<char>) -> bool {
    match problem {
        None => r matches Ok(c) && c@ == cmd,
        Some(m) => r matches Err(Error::InvalidPath(e)) && e@ == m,
    }
}

/// The command that lists a device directory with name, size, mtime and
/// type of every entry in one round trip.
pub fn list_dir_command(path: &str) -> (r: Result<String, Error>)
    ensures
        command_result(r, device_path_problem(path@), list_dir_cmd(path@)),
{
    match validate_device_path(path) {
        Err(e) => return Err(e),
        Ok(()) => {},
    }
    let cs = chars_of(path);
    let mut dir = trim_end_chars(&cs, '/');
    dir.push('/');
    proof {
        reveal_strlit("/");
    }
    assert(dir@ == listing_dir(path@));
    let dir_s = string_of(&dir);
    let quoted = shell_quote(dir_s.as_str());
    let cmd = String::from_str("find ").concat(quoted.as_str()).concat(
        " -maxdepth 1 -mindepth 1 -exec stat -c '%n|%s|%Y|%F' {} + 2>/dev/null",
    );
    Ok(cmd)
}

pub open spec fn make_dir_cmd(p: Seq<char>) -> Seq<char> {
    "mkdir -p "@ + shell_quoted(p)
}

/// The command that creates a device directory (and its parents).
pub fn make_dir_command(path: &str) -> (r: Result<String, Error>)
    ensures
        command_result(r, device_path_problem(path@), make_dir_cmd(path@)),
{
    match validate_device_path(path) {
        Err(e) => return Err(e),
        Ok(()) => {},
    }
    Ok(String::from_str("mkdir -p ").concat(shell_quote(path).as_str()))
}

pub open spec fn remove_cmd(p: Seq<char>) -> Seq<char> {
    "rm -rf "@ + shell_quoted(p)
}

/// The command that deletes a device path, refused for storage roots.
pub fn remove_command(path: &str) -> (r: Result<String, Error>)
    ensures
        command_result(r, deletable_problem(path@), remove_cmd(path@)),
{
    match check_deletable(path) {
        Err(e) => return Err(e),
        Ok(()) => {},
    }
    Ok(String::from_str("rm -rf ").concat(shell_quote(path).as_str()))
}

/// The quoted paths joined by single spaces.
pub open spec fn join_quoted(ps: Seq<Seq<char>>) -> Seq<char>
    decreases ps.len(),
{
    if ps.len() == 0 {
        Seq::empty()
    } else if ps.len() == 1 {
        shell_quoted(ps[0])
    } else {
        join_quoted(ps.drop_last()) + " "@ + shell_quoted(ps.last())
    }
}

/// The command that deletes many paths at once.
pub open spec fn remove_many_cmd(ps: Seq<Seq<char>>) -> Seq<char> {
    "rm -rf "@ + join_quoted(ps)
}

/// A plain word, then a space, starts the words of a command line.
proof fn lemma_plain_word_first(word: Seq<char>, rest: Seq<char>)
    requires
        word.len() > 0,
        forall|i: int| 0 <= i < word.len() ==> plain_shell_char(#[trigger] word[i]),
    ensures
        shell_words(word + " "@ + rest) == prepend_words(seq![word], shell_words(rest)),
{
    lemma_split_plain(word, " "@ + rest, false, Seq::empty());
    assert(word + " "@ + rest == word + (" "@ + rest));
    assert(Seq::<char>::empty() + word == word);
    lemma_split_space(rest, word);
}

/// Law: read by the device shell, each command splits into its program,
/// its flags and then exactly the given paths, in order: `rm -rf` and the
/// paths to delete (one or many), `mkdir -p` and the path, `mv` and the two
/// paths.
pub proof fn lemma_commands_split_into_words(p: Seq<char>, q: Seq<char>, ps: Seq<Seq<char>>)
    ensures
        ps.len() >= 1 ==> shell_words(remove_many_cmd(ps)) == Some(seq!["rm"@, "-rf"@] + ps),
        shell_words(remove_cmd(p)) == Some(seq!["rm"@, "-rf"@, p]),
        shell_words(make_dir_cmd(p)) == Some(seq!["mkdir"@, "-p"@, p]),
        shell_words(rename_cmd(p, q)) == Some(seq!["mv"@, p, q]),
{
    reveal_strlit("rm -rf ");
    reveal_strlit("mkdir -p ");
    reveal_strlit("mv ");
    reveal_strlit("rm");
    reveal_strlit("-rf");
    reveal_strlit("mkdir");
    reveal_strlit("-p");
    reveal_strlit("mv");
    reveal_strlit(" ");
    let rm = "rm"@;
    let rf = "-rf"@;
    let mk = "mkdir"@;
    let dp = "-p"@;
    let mv = "mv"@;
    assert(rm =~= seq!['r', 'm']);
    assert(rf =~= seq!['-', 'r', 'f']);
    assert(mk =~= seq!['m', 'k', 'd', 'i', 'r']);
    assert(dp =~= seq!['-', 'p']);
    assert(mv =~= seq!['m', 'v']);
    assert(forall|i: int| 0 <= i < rm.len() ==> plain_shell_char(#[trigger] rm[i]));
    assert(forall|i: int| 0 <= i < rf.len() ==> plain_shell_char(#[trigger] rf[i]));
    assert(forall|i: int| 0 <= i < mk.len() ==> plain_shell_char(#[trigger] mk[i]));
    assert(forall|i: int| 0 <= i < dp.len() ==> plain_shell_char(#[trigger] dp[i]));
    assert(forall|i: int| 0 <= i < mv.len() ==> plain_shell_char(#[trigger] mv[i]));
    // rm -rf and any paths
    assert forall|xs: Seq<Seq<char>>| xs.len() >= 1 implies shell_words(#[trigger] remove_many_cmd(xs)) == Some(
        seq![rm, rf] + xs,
    ) by {
        let j = join_quoted(xs);
        assert("rm -rf "@ + j == rm + " "@ + (rf + " "@ + j));
        lemma_plain_word_first(rm, rf + " "@ + j);
        lemma_plain_word_first(rf, j);
        lemma_joined_words(xs, Seq::empty());
        assert(seq![rm] + (seq![rf] + xs) == seq![rm, rf] + xs);
    }
    assert(join_quoted(seq![p]) == shell_quoted(p));
    assert(remove_cmd(p) == remove_many_cmd(seq![p]));
    assert(shell_words(remove_many_cmd(seq![p])) == Some(seq![rm, rf] + seq![p]));
    assert(seq![rm, rf] + seq![p] == seq![rm, rf, p]);
    // mkdir -p and the path
    lemma_joined_words(seq![p], Seq::empty());
    assert(make_dir_cmd(p) == mk + " "@ + (dp + " "@ + join_quoted(seq![p])));
    lemma_plain_word_first(mk, dp + " "@ + join_quoted(seq![p]));
    lemma_plain_word_first(dp, join_quoted(seq![p]));
    assert(seq![mk] + (seq![dp] + seq![p]) == seq![mk, dp, p]);
    // mv and the two paths
    let two = seq![p, q];
    assert(two.drop_last() == seq![p]);
    assert(join_quoted(two) == shell_quoted(p) + " "@ + shell_quoted(q));
    lemma_joined_words(two, Seq::empty());
    assert(rename_cmd(p, q) == mv + " "@ + join_quoted(two));
    lemma_plain_word_first(mv, join_quoted(two));
    assert(seq![mv] + two == seq![mv, p, q]);
}

/// The first path of `ps` that may not be deleted, with its message.
pub open spec fn first_undeletable(ps: Seq<Seq<char>>) -> Option<Seq<char>>
    decreases ps.len(),
{
    if ps.len() == 0 {
        None
    } else {
        match first_undeletable(ps.drop_last()) {
            Some(m) => Some(m),
            None => deletable_problem(ps.last()),
        }
    }
}

pub open spec fn string_views(s: Seq<String>) -> Seq<Seq<char>> {
    s.map_values(|x: String| x@)
}

/// The single `rm -rf` that deletes many paths in one round trip: `None`
/// where there is nothing to delete; the first refused path's error where
/// one is refused.
pub fn remove_many_command(paths: &Vec<String>) -> (r: Result<Option<String>, Error>)
    ensures
        paths@.len() == 0 ==> (r matches Ok(None)),
        paths@.len() > 0 ==> match first_undeletable(string_views(paths@)) {
            None => r matches Ok(Some(c)) && c@ == remove_many_cmd(string_views(paths@)),
            Some(m) => r matches Err(Error::InvalidPath(e)) && e@ == m,
        },
{
    if paths.len() == 0 {
        return Ok(None);
    }
    let ghost ps = string_views(paths@);
    let mut joined = String::new();
    let mut i: usize = 0;
    assert(ps.take(0) == Seq::<Seq<char>>::empty());
    while i < paths.len()
        invariant
            i <= paths.len(),
            ps == string_views(paths@),
            first_undeletable(ps.take(i as int)) is None,
            joined@ == join_quoted(ps.take(i as int)),
        decreases paths.len() - i,
    {
        proof {
            assert(ps.take(i + 1).drop_last() == ps.take(i as int));
            assert(ps.take(i + 1).last() == paths@[i as int]@);
        }
        match check_deletable(paths[i].as_str()) {
            Err(e) => {
                proof {
                    lemma_first_undeletable_prefix(ps, i as int + 1);
                }
                return Err(e);
            },
            Ok(()) => {},
        }
        let q = shell_quote(paths[i].as_str());
        if i > 0 {
            joined.push(' ');
        }
        let qc = chars_of(q.as_str());
        push_chars(&mut joined, &qc);
        proof {
            reveal_strlit(" ");
            if i == 0 {
                assert(ps.take(1) == seq![ps[0]]);
                assert(joined@ == Seq::<char>::empty() + shell_quoted(ps[0]));
            } else {
                assert(ps.take(i + 1).len() >= 2);
            }
        }
        i = i + 1;
    }
    assert(ps.take(paths.len() as int) == ps);
    Ok(Some(String::from_str("rm -rf ").concat(joined.as_str())))
}

proof fn lemma_first_undeletable_prefix(ps: Seq<Seq<char>>, k: int)
    requires
        0 <= k <= ps.len(),
        first_undeletable(ps.take(k)) is Some,
    ensures
        first_undeletable(ps) == first_undeletable(ps.take(k)),
    decreases ps.len() - k,
{
    if k < ps.len() {
        assert(ps.take(k + 1).drop_last() == ps.take(k));
        lemma_first_undeletable_prefix(ps, k + 1);
    } else {
        assert(ps.take(k) == ps);
    }
}

pub open spec fn rename_cmd(from: Seq<char>, to: Seq<char>) -> Seq<char> {
    "mv "@ + shell_quoted(from) + " "@ + shell_quoted(to)
}

/// The command that renames or moves a device path; both ends are checked.
pub fn rename_command(from: &str, to: &str) -> (r: Result<String, Error>)
    ensures
        command_result(
            r,
            match device_path_problem(from@) {
                Some(m) => Some(m),
                None => device_path_problem(to@),
            },
            rename_cmd(from@, to@),
        ),
{
    match validate_device_path(from) {
        Err(e) => return Err(e),
        Ok(()) => {},
    }
    match validate_device_path(to) {
        Err(e) => return Err(e),
        Ok(()) => {},
    }
    Ok(
        String::from_str("mv ").concat(shell_quote(from).as_str()).concat(" ").concat(
            shell_quote(to).as_str(),
        ),
    )
}

/// Arguments that scope an adb command to one device: `-s <serial>` first.
pub fn scoped_args(serial: &str, args: &Vec<String>) -> (r: Vec<String>)
    ensures
        string_views(r@) == seq!["-s"@, serial@] + string_views(args@),
{
    let mut r: Vec<String> = Vec::new();
    r.push(String::from_str("-s"));
    r.push(String::from_str(serial));
    let mut i: usize = 0;
    while i < args.len()
        invariant
            i <= args.len(),
            string_views(r@) == seq!["-s"@, serial@] + string_views(args@).take(i as int),
        decreases args.len() - i,
    {
        let ghost before = r@;
        r.push(args[i].clone());
        assert(string_views(r@) =~= string_views(before).push(args@[i as int]@));
        assert(string_views(args@).take(i + 1) =~= string_views(args@).take(i as int).push(
            args@[i as int]@,
        ));
        i = i + 1;
    }
    assert(string_views(args@).take(args.len() as int) == string_views(args@));
    r
}

fn strings_of(parts: &[&str]) -> (r: Vec<String>)
    ensures
        r@.len() == parts@.len(),
        forall|i: int| 0 <= i < parts@.len() ==> #[trigger] r@[i]@ == parts@[i]@,
{
    let mut r: Vec<String> = Vec::new();
    let mut i: usize = 0;
    while i < parts.len()
        invariant
            i <= parts.len(),
            r@.len() == i,
            forall|m: int| 0 <= m < i ==> #[trigger] r@[m]@ == parts@[m]@,
        decreases parts.len() - i,
    {
        r.push(String::from_str(parts[i]));
        i = i + 1;
    }
    r
}

/// The adb arguments that copy a device path to the local machine, keeping
/// timestamps; refused for paths outside device storage.
pub fn pull_args(serial: &str, remote: &str, local: &str) -> (r: Result<Vec<String>, Error>)
    ensures
        match device_path_problem(remote@) {
            None => r matches Ok(a) && string_views(a@) == seq![
                "-s"@,
                serial@,
                "pull"@,
                "-a"@,
                remote@,
                local@,
            ],
            Some(m) => r matches Err(Error::InvalidPath(e)) && e@ == m,
        },
{
    match validate_device_path(remote) {
        Err(e) => return Err(e),
        Ok(()) => {},
    }
    let a = strings_of(&["-s", serial, "pull", "-a", remote, local]);
    assert(string_views(a@) =~= seq!["-s"@, serial@, "pull"@, "-a"@, remote@, local@]);
    Ok(a)
}

/// The adb arguments that copy a local path to the device; refused for
/// device paths outside device storage.
pub fn push_args(serial: &str, local: &str, remote: &str) -> (r: Result<Vec<String>, Error>)
    ensures
        match device_path_problem(remote@) {
            None => r matches Ok(a) && string_views(a@) == seq![
                "-s"@,
                serial@,
                "push"@,
                local@,
                remote@,
            ],
            Some(m) => r matches Err(Error::InvalidPath(e)) && e@ == m,
        },
{
    match validate_device_path(remote) {
        Err(e) => return Err(e),
        Ok(()) => {},
    }
    let a = strings_of(&["-s", serial, "push", local, remote]);
    assert(string_views(a@) =~= seq!["-s"@, serial@, "push"@, local@, remote@]);
    Ok(a)
}

// ---------------------------------------------------------------------------
// Reading a finished command
// ---------------------------------------------------------------------------

/// The message of a failed command: its trimmed error output, else its
/// trimmed standard output, else a fixed text.
pub open spec fn failure_message(stdout: Seq<u8>, stderr: Seq<u8>) -> Seq<char> {
    let e = trim_white(utf8_lossy(stderr));
    let o = trim_white(utf8_lossy(stdout));
    if e.len() > 0 {
        e
    } else if o.len() > 0 {
        o
    } else {
        "command failed"@
    }
}

/// The result of an adb run: its decoded standard output when it exited
/// successfully, else an adb error carrying what it reported.
pub fn command_output(success: bool, stdout: &[u8], stderr: &[u8]) -> (r: Result<String, Error>)
    ensures
        success ==> (r matches Ok(s) && s@ == utf8_lossy(stdout@)),
        !success ==> (r matches Err(Error::Adb(m)) && m@ == failure_message(stdout@, stderr@)),
{
    if success {
        return Ok(decode_lossy(stdout));
    }
    let e = decode_lossy(stderr);
    let o = decode_lossy(stdout);
    let et = trim_chars(&chars_of(e.as_str()));
    let ot = trim_chars(&chars_of(o.as_str()));
    let msg = if et.len() > 0 {
        string_of(&et)
    } else if ot.len() > 0 {
        string_of(&ot)
    } else {
        String::from_str("command failed")
    };
    Err(Error::Adb(msg))
}

/// The first line of a text, trimmed (empty for an empty text).
pub open spec fn first_line(out: Seq<char>) -> Seq<char> {
    trim_white(split_on(out, '\n')[0])
}

/// The version line that `adb version` prints first.
pub fn version_line(out: &str) -> (r: String)
    ensures
        r@ == first_line(out@),
{
    let cs = chars_of(out);
    let lines = split_chars(&cs, '\n');
    proof {
        lemma_split_on_nonempty(out@, '\n');
        assert(views(lines@)[0] == lines@[0]@);
    }
    string_of(&trim_chars(&lines[0]))
}

} // verus!
