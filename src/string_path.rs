use vstd::prelude::*;

verus! {

/// True when `s` starts with the Windows verbatim prefix `\\?\`.
pub open spec fn has_verbatim_prefix(s: Seq<char>) -> bool {
    s.len() >= 4 && s[0] == '\\' && s[1] == '\\' && s[2] == '?' && s[3] == '\\'
}

pub open spec fn is_ascii_alpha(c: char) -> bool {
    ('a' <= c && c <= 'z') || ('A' <= c && c <= 'Z')
}

/// True when `s` starts like a Windows drive path: an ASCII letter followed by `:`.
pub open spec fn windows_path_start(s: Seq<char>) -> bool {
    s.len() >= 2 && is_ascii_alpha(s[0]) && s[1] == ':'
}

/// The joined path: a verbatim prefix is dropped and a backslash used, a drive
/// path is joined with a backslash, anything else with a forward slash.
pub open spec fn joined(parent: Seq<char>, child: Seq<char>) -> Seq<char> {
    if has_verbatim_prefix(parent) {
        parent.subrange(4, parent.len() as int) + seq!['\\'] + child
    } else if windows_path_start(parent) {
        parent + seq!['\\'] + child
    } else {
        parent + seq!['/'] + child
    }
}

pub fn is_windows_path_start(s: &str) -> (r: bool)
    ensures
        r == windows_path_start(s@),
{
    let n = s.unicode_len();
    if n < 2 {
        return false;
    }
    let c0 = s.get_char(0);
    let c1 = s.get_char(1);
    (('a' <= c0 && c0 <= 'z') || ('A' <= c0 && c0 <= 'Z')) && c1 == ':'
}

fn starts_verbatim(s: &str) -> (r: bool)
    ensures
        r == has_verbatim_prefix(s@),
{
    let n = s.unicode_len();
    if n < 4 {
        return false;
    }
    s.get_char(0) == '\\' && s.get_char(1) == '\\' && s.get_char(2) == '?' && s.get_char(3)
        == '\\'
}

/// Joins a parent directory and a child name with the separator that the
/// parent's form calls for.
pub fn join_path(path_parent: &str, path_child: &str) -> (r: String)
    ensures
        r@ == joined(path_parent@, path_child@),
{
    let mut out: String;
    if starts_verbatim(path_parent) {
        let n = path_parent.unicode_len();
        let rest = path_parent.substring_char(4, n);
        out = rest.to_owned();
        out.append("\\");
    } else if is_windows_path_start(path_parent) {
        out = path_parent.to_owned();
        out.append("\\");
    } else {
        out = path_parent.to_owned();
        out.append("/");
    }
    proof {
        reveal_strlit("\\");
        reveal_strlit("/");
    }
    out.append(path_child);
    out
}

} // verus!
