//! Wireless (Wi-Fi) adb connectivity: reading the device address and the
//! replies of `adb connect` and `adb pair`.
use vstd::prelude::*;

use crate::error::Error;
use crate::text::{
    chars_of, contains_chars, contains_seq, has_prefix, lemma_split_on_nonempty, lowercase,
    slice_chars, split_chars, split_on, starts_with, string_of, trim_chars, trim_white, views,
    words, words_exec,
};

verus! {

/// The address one line of `ip -f inet addr show wlan0` gives: on a line
/// that, trimmed, starts with `inet `, the first word after it up to its
/// first `/` (the address without its prefix length).
pub open spec fn ip_of_line(line: Seq<char>) -> Option<Seq<char>> {
    let t = trim_white(line);
    if starts_with(t, "inet "@) {
        let ws = words(t.skip(5));
        if ws.len() > 0 {
            Some(split_on(ws[0], '/')[0])
        } else {
            None
        }
    } else {
        None
    }
}

/// The address of the first line that gives one.
pub open spec fn first_ip(lines: Seq<Seq<char>>) -> Option<Seq<char>>
    decreases lines.len(),
{
    if lines.len() == 0 {
        None
    } else {
        match first_ip(lines.drop_last()) {
            Some(a) => Some(a),
            None => ip_of_line(lines.last()),
        }
    }
}

fn ip_of_line_exec(line: &[char]) -> (r: Option<Vec<char>>)
    ensures
        match ip_of_line(line@) {
            Some(a) => r matches Some(v) && v@ == a,
            None => r is None,
        },
{
    let t = trim_chars(line);
    let prefix = chars_of("inet ");
    proof {
        reveal_strlit("inet ");
    }
    if !has_prefix(&t, &prefix) {
        return None;
    }
    let rest = slice_chars(&t, 5, t.len());
    assert(rest@ == t@.skip(5));
    let ws = words_exec(&rest);
    if ws.len() == 0 {
        return None;
    }
    let parts = split_chars(&ws[0], '/');
    proof {
        lemma_split_on_nonempty(ws@[0]@, '/');
        assert(views(ws@)[0] == ws@[0]@);
        assert(views(parts@)[0] == parts@[0]@);
    }
    Some(slice_chars(&parts[0], 0, parts[0].len()))
}

/// Reads the device's wlan0 IPv4 address from the output of
/// `ip -f inet addr show wlan0` (a line like `inet 192.168.1.5/24 brd ...`).
pub fn wifi_ip_from_output(out: &str) -> (r: Result<String, Error>)
    ensures
        first_ip(split_on(out@, '\n')) is Some ==> (r matches Ok(ip) && ip@ == first_ip(
            split_on(out@, '\n'),
        ).unwrap()),
        first_ip(split_on(out@, '\n')) is None ==> (r matches Err(Error::Adb(m)) && m@
            == "could not determine device Wi-Fi IP (is Wi-Fi on?)"@),
{
    let cs = chars_of(out);
    let lines = split_chars(&cs, '\n');
    let ghost ls = split_on(out@, '\n');
    let mut i: usize = 0;
    assert(ls.take(0) == Seq::<Seq<char>>::empty());
    while i < lines.len()
        invariant
            i <= lines.len(),
            views(lines@) == ls,
            ls == split_on(out@, '\n'),
            first_ip(ls.take(i as int)) is None,
        decreases lines.len() - i,
    {
        proof {
            assert(ls.take(i + 1).drop_last() == ls.take(i as int));
            assert(ls.take(i + 1).last() == lines@[i as int]@);
        }
        match ip_of_line_exec(&lines[i]) {
            Some(a) => {
                proof {
                    assert(first_ip(ls.take(i + 1)) == ip_of_line(lines@[i as int]@));
                    assert(ip_of_line(lines@[i as int]@) == Some(a@));
                    lemma_first_ip_prefix(ls, i + 1);
                    assert(first_ip(ls) == Some(a@));
                }
                let ip = string_of(&a);
                assert(ip@ == a@);
                return Ok(ip);
            },
            None => {},
        }
        i = i + 1;
    }
    assert(ls.take(lines.len() as int) == ls);
    Err(Error::Adb(String::from_str("could not determine device Wi-Fi IP (is Wi-Fi on?)")))
}

proof fn lemma_first_ip_prefix(ls: Seq<Seq<char>>, k: int)
    requires
        0 <= k <= ls.len(),
        first_ip(ls.take(k)) is Some,
    ensures
        first_ip(ls) == first_ip(ls.take(k)),
    decreases ls.len() - k,
{
    if k < ls.len() {
        assert(ls.take(k + 1).drop_last() == ls.take(k));
        lemma_first_ip_prefix(ls, k + 1);
    } else {
        assert(ls.take(k) == ls);
    }
}

/// The address to connect to once the device listens on TCP/IP port 5555.
pub fn tcpip_address(ip: &str) -> (r: String)
    ensures
        r@ == ip@ + ":5555"@,
{
    String::from_str(ip).concat(":5555")
}

/// `adb connect` reports a failure when its lower-cased reply mentions
/// "cannot", "failed" or "unable".
pub open spec fn connect_failure_text(lower: Seq<char>) -> bool {
    contains_seq(lower, "cannot"@) || contains_seq(lower, "failed"@) || contains_seq(lower, "unable"@)
}

/// Does a lower-cased `adb connect` reply report a failure?
pub fn connect_failed(lower: &str) -> (r: bool)
    ensures
        r == connect_failure_text(lower@),
{
    let cs = chars_of(lower);
    contains_chars(&cs, &chars_of("cannot")) || contains_chars(&cs, &chars_of("failed"))
        || contains_chars(&cs, &chars_of("unable"))
}

/// The outcome of `adb connect`: the trimmed reply, as an adb error where
/// it reports a failure.
pub fn check_connect_output(out: &str) -> (r: Result<String, Error>)
    ensures
        connect_failure_text(lowercase(out@)) ==> (r matches Err(Error::Adb(m)) && m@ == trim_white(out@)),
        !connect_failure_text(lowercase(out@)) ==> (r matches Ok(s) && s@ == trim_white(out@)),
{
    let lower = out.to_lowercase();
    let trimmed = string_of(&trim_chars(&chars_of(out)));
    if connect_failed(lower.as_str()) {
        Err(Error::Adb(trimmed))
    } else {
        Ok(trimmed)
    }
}

/// `adb pair` reports a failure when its lower-cased reply mentions "fail".
pub open spec fn pair_failure_text(lower: Seq<char>) -> bool {
    contains_seq(lower, "fail"@)
}

/// Does a lower-cased `adb pair` reply report a failure?
pub fn pair_failed(lower: &str) -> (r: bool)
    ensures
        r == pair_failure_text(lower@),
{
    contains_chars(&chars_of(lower), &chars_of("fail"))
}

/// The outcome of `adb pair`: the trimmed reply, as an adb error where it
/// reports a failure.
pub fn check_pair_output(out: &str) -> (r: Result<String, Error>)
    ensures
        pair_failure_text(lowercase(out@)) ==> (r matches Err(Error::Adb(m)) && m@ == trim_white(out@)),
        !pair_failure_text(lowercase(out@)) ==> (r matches Ok(s) && s@ == trim_white(out@)),
{
    let lower = out.to_lowercase();
    let trimmed = string_of(&trim_chars(&chars_of(out)));
    if pair_failed(lower.as_str()) {
        Err(Error::Adb(trimmed))
    } else {
        Ok(trimmed)
    }
}

} // verus!
