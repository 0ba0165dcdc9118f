//! The JSON text of a listing.

use vstd::prelude::*;
use vstd::string::StringExecFns;
use crate::hidden::{UrlHiddenDir, UrlHiddenFile};

verus! {

/// The JSON string literal (quoted and escaped) of a text.
pub uninterp spec fn json_quoted(s: Seq<char>) -> Seq<char>;

/// Relies on `serde_json::to_string` on a `str`: it yields the JSON string
/// literal of the text. It writes into a `Vec<u8>`, which cannot fail, so the
/// error arm is never taken.
#[verifier::external_body]
fn json_quote(s: &str) -> (r: String)
    ensures
        r@ == json_quoted(s@),
{
    serde_json::to_string(s).unwrap_or_default()
}

pub open spec fn digit_char(d: nat) -> char {
    if d == 0 {
        '0'
    } else if d == 1 {
        '1'
    } else if d == 2 {
        '2'
    } else if d == 3 {
        '3'
    } else if d == 4 {
        '4'
    } else if d == 5 {
        '5'
    } else if d == 6 {
        '6'
    } else if d == 7 {
        '7'
    } else if d == 8 {
        '8'
    } else {
        '9'
    }
}

/// The decimal digits of `n`, without leading zeros.
pub open spec fn decimal(n: nat) -> Seq<char>
    decreases n,
{
    if n < 10 {
        seq![digit_char(n)]
    } else {
        decimal(n / 10) + seq![digit_char(n % 10)]
    }
}

/// A file of the listing as a JSON object.
pub open spec fn file_json(f: UrlHiddenFile) -> Seq<char> {
    "{\"name\":"@ + json_quoted(f.name@) + ",\"size\":"@ + decimal(f.size as nat)
        + ",\"last_modified\":"@ + decimal(f.last_modified as nat) + "}"@
}

/// The JSON objects of the files, separated by commas.
pub open spec fn files_json(s: Seq<UrlHiddenFile>) -> Seq<char>
    decreases s.len(),
{
    if s.len() == 0 {
        Seq::empty()
    } else if s.len() == 1 {
        file_json(s[0])
    } else {
        files_json(s.drop_last()) + ","@ + file_json(s.last())
    }
}

/// A directory of the listing as a JSON object, its files and subdirectories
/// as arrays of the same shapes.
pub open spec fn dir_json(h: UrlHiddenDir) -> Seq<char>
    decreases h, h.subdirectories@.len() + 1,
{
    "{\"name\":"@ + json_quoted(h.name@) + ",\"size\":"@ + decimal(h.size as nat)
        + ",\"last_modified\":"@ + decimal(h.last_modified as nat) + ",\"files\":["@ + files_json(
        h.files@,
    ) + "],\"subdirectories\":["@ + subdirs_json(h, h.subdirectories@.len()) + "]}"@
}

/// The JSON objects of the first `n` subdirectories of `h`, separated by commas.
pub open spec fn subdirs_json(h: UrlHiddenDir, n: nat) -> Seq<char>
    decreases h, n,
{
    if n == 0 || n > h.subdirectories@.len() {
        Seq::empty()
    } else if n == 1 {
        dir_json(h.subdirectories@[0])
    } else {
        subdirs_json(h, (n - 1) as nat) + ","@ + dir_json(h.subdirectories@[n - 1])
    }
}

fn digit_str(d: u64) -> (r: &'static str)
    requires
        d < 10,
    ensures
        r@ == seq![digit_char(d as nat)],
{
    proof {
        reveal_strlit("0");
        reveal_strlit("1");
        reveal_strlit("2");
        reveal_strlit("3");
        reveal_strlit("4");
        reveal_strlit("5");
        reveal_strlit("6");
        reveal_strlit("7");
        reveal_strlit("8");
        reveal_strlit("9");
    }
    if d == 0 {
        "0"
    } else if d == 1 {
        "1"
    } else if d == 2 {
        "2"
    } else if d == 3 {
        "3"
    } else if d == 4 {
        "4"
    } else if d == 5 {
        "5"
    } else if d == 6 {
        "6"
    } else if d == 7 {
        "7"
    } else if d == 8 {
        "8"
    } else {
        "9"
    }
}

fn push_decimal(out: &mut String, n: u64)
    ensures
        final(out)@ == old(out)@ + decimal(n as nat),
    decreases n,
{
    if n >= 10 {
        push_decimal(out, n / 10);
    }
    out.append(digit_str(n % 10));
    assert(final(out)@ =~= old(out)@ + decimal(n as nat));
}

fn push_file(out: &mut String, f: &UrlHiddenFile)
    ensures
        final(out)@ == old(out)@ + file_json(*f),
{
    out.append("{\"name\":");
    let name = json_quote(f.name.as_str());
    out.append(name.as_str());
    out.append(",\"size\":");
    push_decimal(out, f.size);
    out.append(",\"last_modified\":");
    push_decimal(out, f.last_modified);
    out.append("}");
    assert(final(out)@ =~= old(out)@ + file_json(*f));
}

fn push_dir(out: &mut String, h: &UrlHiddenDir)
    ensures
        final(out)@ == old(out)@ + dir_json(*h),
    decreases h,
{
    let ghost start = out@;
    out.append("{\"name\":");
    let name = json_quote(h.name.as_str());
    out.append(name.as_str());
    out.append(",\"size\":");
    push_decimal(out, h.size);
    out.append(",\"last_modified\":");
    push_decimal(out, h.last_modified);
    out.append(",\"files\":[");
    let ghost head = out@;
    for i in 0..h.files.len()
        invariant
            out@ == head + files_json(h.files@.take(i as int)),
    {
        if i > 0 {
            out.append(",");
        }
        push_file(out, &h.files[i]);
        proof {
            let t = h.files@.take(i + 1);
            assert(t.drop_last() =~= h.files@.take(i as int));
            if i == 0 {
                assert(files_json(h.files@.take(0)) =~= Seq::<char>::empty());
            }
        }
        assert(out@ =~= head + files_json(h.files@.take(i + 1)));
    }
    assert(h.files@.take(h.files@.len() as int) =~= h.files@);
    out.append("],\"subdirectories\":[");
    let ghost middle = out@;
    for i in 0..h.subdirectories.len()
        invariant
            out@ == middle + subdirs_json(*h, i as nat),
    {
        if i > 0 {
            out.append(",");
        }
        push_dir(out, &h.subdirectories[i]);
        proof {
            if i == 0 {
                assert(subdirs_json(*h, 0) =~= Seq::<char>::empty());
            }
        }
        assert(out@ =~= middle + subdirs_json(*h, (i + 1) as nat));
    }
    out.append("]}");
    assert(out@ =~= start + dir_json(*h));
}

impl UrlHiddenFile {
    /// The file as a JSON object with fields `name`, `size` and `last_modified`.
    pub fn to_json(&self) -> (r: String)
        ensures
            r@ == file_json(*self),
    {
        let mut out = String::new();
        push_file(&mut out, self);
        assert(out@ =~= file_json(*self));
        out
    }
}

impl UrlHiddenDir {
    /// The directory as a JSON object with fields `name`, `size`,
    /// `last_modified`, `files` and `subdirectories`, the last two arrays of
    /// objects of the same shapes.
    pub fn to_json(&self) -> (r: String)
        ensures
            r@ == dir_json(*self),
    {
        let mut out = String::new();
        push_dir(&mut out, self);
        assert(out@ =~= dir_json(*self));
        out
    }
}

} // verus!
