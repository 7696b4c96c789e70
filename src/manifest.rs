use vstd::prelude::*;
use crate::text::opt_text;
use crate::transfer::RemoteFileItem;

verus! {

/// A character of a manifest field as written: `%`, tab and newline are
/// percent-encoded, everything else stands for itself.
pub open spec fn escape_char(c: char) -> Seq<char> {
    if c == '%' {
        seq!['%', '2', '5']
    } else if c == '\t' {
        seq!['%', '0', '9']
    } else if c == '\n' {
        seq!['%', '0', 'A']
    } else {
        seq![c]
    }
}

pub open spec fn escape(s: Seq<char>) -> Seq<char>
    decreases s.len(),
{
    if s.len() == 0 {
        Seq::empty()
    } else {
        escape(s.drop_last()) + escape_char(s.last())
    }
}

pub open spec fn digit_char(d: nat) -> char {
    seq!['0', '1', '2', '3', '4', '5', '6', '7', '8', '9'][d as int]
}

/// Decimal digits of `n`, without leading zeros.
pub open spec fn decimal(n: nat) -> Seq<char>
    decreases n,
{
    if n < 10 {
        seq![digit_char(n)]
    } else {
        decimal(n / 10) + seq![digit_char(n % 10)]
    }
}

pub open spec fn opt_field(o: Option<Seq<char>>) -> Seq<char> {
    match o {
        Some(s) => escape(s),
        None => seq!['-'],
    }
}

/// One manifest record without its terminating newline: path, length, hash
/// or `-`, modification time or `-`, separated by tabs.
pub open spec fn manifest_line(path: Seq<char>, len: u64, sha1: Option<Seq<char>>, modified: Option<Seq<char>>) -> Seq<char> {
    escape(path) + seq!['\t'] + decimal(len as nat) + seq!['\t'] + opt_field(sha1) + seq!['\t'] + opt_field(modified)
}

pub open spec fn item_line(item: RemoteFileItem) -> Seq<char> {
    manifest_line(item.path@, item.len, opt_text(item.sha1), opt_text(item.modified))
}

fn one_char(s: &str, i: usize, n: usize) -> (r: &str)
    requires
        i < n,
        n == s@.len(),
    ensures
        r@ == seq![s@[i as int]],
{
    let r = s.substring_char(i, i + 1);
    assert(r@ =~= seq![s@[i as int]]);
    r
}

fn append_escaped(out: &mut String, s: &str)
    ensures
        final(out)@ == old(out)@ + escape(s@),
{
    let n = s.unicode_len();
    let mut i: usize = 0;
    while i < n
        invariant
            n == s@.len(),
            i <= n,
            out@ == old(out)@ + escape(s@.subrange(0, i as int)),
        decreases n - i,
    {
        let c = s.get_char(i);
        proof {
            assert(s@.subrange(0, i as int + 1).drop_last() =~= s@.subrange(0, i as int));
            assert(s@.subrange(0, i as int + 1).last() == c);
        }
        if c == '%' {
            out.append("%25");
            proof { reveal_strlit("%25"); }
        } else if c == '\t' {
            out.append("%09");
            proof { reveal_strlit("%09"); }
        } else if c == '\n' {
            out.append("%0A");
            proof { reveal_strlit("%0A"); }
        } else {
            out.append(one_char(s, i, n));
        }
        proof {
            assert(out@ =~= old(out)@ + escape(s@.subrange(0, i as int + 1)));
        }
        i = i + 1;
    }
    assert(s@.subrange(0, n as int) =~= s@);
}

fn digit_str(d: u64) -> (r: &'static str)
    requires
        d < 10,
    ensures
        r@ == seq![digit_char(d as nat)],
{
    proof {
        reveal_strlit("0"); reveal_strlit("1"); reveal_strlit("2"); reveal_strlit("3"); reveal_strlit("4");
        reveal_strlit("5"); reveal_strlit("6"); reveal_strlit("7"); reveal_strlit("8"); reveal_strlit("9");
    }
    match d {
        0 => "0",
        1 => "1",
        2 => "2",
        3 => "3",
        4 => "4",
        5 => "5",
        6 => "6",
        7 => "7",
        8 => "8",
        _ => "9",
    }
}

fn append_decimal(out: &mut String, n: u64)
    ensures
        final(out)@ == old(out)@ + decimal(n as nat),
    decreases n,
{
    if n >= 10 {
        append_decimal(out, n / 10);
        out.append(digit_str(n % 10));
        assert(out@ =~= old(out)@ + decimal(n as nat));
    } else {
        out.append(digit_str(n));
    }
}

fn append_opt(out: &mut String, o: &Option<String>)
    ensures
        final(out)@ == old(out)@ + opt_field(opt_text(*o)),
{
    match o {
        Some(s) => append_escaped(out, s.as_str()),
        None => {
            out.append("-");
            proof { reveal_strlit("-"); }
        },
    }
}

/// The manifest record of `item`, without its terminating newline.
pub fn format_manifest_line(item: &RemoteFileItem) -> (r: String)
    ensures
        r@ == item_line(*item),
{
    let mut out = String::new();
    proof { reveal_strlit("\t"); }
    append_escaped(&mut out, item.path.as_str());
    out.append("\t");
    append_decimal(&mut out, item.len);
    out.append("\t");
    append_opt(&mut out, &item.sha1);
    out.append("\t");
    append_opt(&mut out, &item.modified);
    assert(out@ =~= item_line(*item));
    out
}

} // verus!

verus! {

/// Why a manifest record could not be read.
#[derive(PartialEq, Eq, Structural, Clone, Copy, Debug)]
pub enum ManifestError {
    /// The record does not have exactly four tab-separated fields.
    FieldCount,
    /// A `%` is not followed by one of the three codes, or a newline stands unencoded.
    BadEscape,
    /// The length is not a decimal number without leading zeros that fits 64 bits.
    BadLength,
}

/// The field `v` is written at `start` of `s`, ending at the end or at a tab.
pub open spec fn field_at(s: Seq<char>, start: int, v: Seq<char>) -> bool {
    let e = start + escape(v).len();
    &&& 0 <= start
    &&& e <= s.len()
    &&& s.subrange(start, e) == escape(v)
    &&& (e == s.len() || s[e] == '\t')
}

proof fn lemma_escaped_at(s: Seq<char>, start: int, v: Seq<char>, j: int)
    requires
        field_at(s, start, v),
        0 <= j < v.len(),
    ensures
        ({
            let i = start + escape(v.take(j)).len();
            let ec = escape_char(v[j]);
            &&& i + ec.len() <= start + escape(v).len()
            &&& s.subrange(i, i + ec.len()) == ec
            &&& start + escape(v.take(j + 1)).len() == i + ec.len()
        }),
{
    lemma_escape_split(v, j);
    lemma_escape_skip_front(v, j);
    lemma_escape_front(v, j);
    let i = start + escape(v.take(j)).len();
    let ec = escape_char(v[j]);
    let e = start + escape(v).len();
    assert(escape(v) =~= escape(v.take(j)) + ec + escape(v.skip(j + 1)));
    assert(s.subrange(i, i + ec.len()) =~= s.subrange(start, e).subrange(i - start, i - start + ec.len()));
}

fn parse_escaped(s: &str, start: usize, n: usize, Ghost(w): Ghost<Option<Seq<char>>>) -> (r: Result<(String, usize), ManifestError>)
    requires
        n == s@.len(),
        start <= n,
    ensures
        r matches Ok((v, end)) ==> start <= end <= n && (end == n || s@[end as int] == '\t')
            && escape(v@) == s@.subrange(start as int, end as int),
        forall|v: Seq<char>| w == Some(v) && #[trigger] field_at(s@, start as int, v) ==> (r matches Ok((o, end)) && o@ == v
            && end == start + escape(v).len()),
{
    let ghost valid = w matches Some(v) && field_at(s@, start as int, v);
    let ghost v = match w { Some(v) => v, None => Seq::<char>::empty() };
    let ghost mut j: int = 0;
    proof {
        if valid {
            lemma_escape_has_no_tab(v);
            assert(v.take(0) =~= Seq::<char>::empty());
        }
    }
    let mut out = String::new();
    let mut i: usize = start;
    while i < n
        invariant
            n == s@.len(),
            start <= i <= n,
            escape(out@) == s@.subrange(start as int, i as int),
            valid == (w matches Some(vv) && field_at(s@, start as int, vv)),
            valid ==> w == Some(v),
            valid ==> 0 <= j <= v.len() && out@ == v.take(j) && i == start + escape(v.take(j)).len(),
            valid ==> forall|q: int| 0 <= q < escape(v).len() ==> escape(v)[q] != '\t' && escape(v)[q] != '\n',
        decreases n - i,
    {
        let c = s.get_char(i);
        proof {
            if valid {
                if j == v.len() {
                    assert(v.take(j) =~= v);
                } else {
                    lemma_escaped_at(s@, start as int, v, j);
                    let ec = escape_char(v[j]);
                    assert(s@[i as int] == s@.subrange(i as int, i + ec.len())[0]);
                    assert(s@.subrange(i as int, i + ec.len())[0] == ec[0]);
                    lemma_escape_split(v, j);
                    lemma_escape_skip_front(v, j);
                    assert(escape(v) =~= escape(v.take(j)) + ec + escape(v.skip(j + 1)));
                    assert(escape(v)[i - start] == ec[0]);
                    if ec.len() == 3 {
                        assert(s@[i + 1] == s@.subrange(i as int, i + ec.len())[1]);
                        assert(s@[i + 2] == s@.subrange(i as int, i + ec.len())[2]);
                    }
                }
            }
        }
        if c == '\t' {
            return Ok((out, i));
        }
        let ghost before = out@;
        if c == '%' {
            if n - i < 3 {
                return Err(ManifestError::BadEscape);
            }
            let c1 = s.get_char(i + 1);
            let c2 = s.get_char(i + 2);
            if c1 == '2' && c2 == '5' {
                out.append("%");
                proof { reveal_strlit("%"); }
            } else if c1 == '0' && c2 == '9' {
                out.append("\t");
                proof { reveal_strlit("\t"); }
            } else if c1 == '0' && c2 == 'A' {
                out.append("\n");
                proof { reveal_strlit("\n"); }
            } else {
                return Err(ManifestError::BadEscape);
            }
            proof {
                assert(out@.drop_last() =~= before);
                assert(s@.subrange(start as int, i + 3) =~= s@.subrange(start as int, i as int) + escape_char(out@.last()));
                if valid {
                    lemma_escaped_at(s@, start as int, v, j);
                    assert(out@ =~= v.take(j + 1));
                    j = j + 1;
                }
            }
            i = i + 3;
        } else if c == '\n' {
            return Err(ManifestError::BadEscape);
        } else {
            out.append(one_char(s, i, n));
            proof {
                assert(out@.drop_last() =~= before);
                assert(s@.subrange(start as int, i + 1) =~= s@.subrange(start as int, i as int) + escape_char(c));
                if valid {
                    lemma_escaped_at(s@, start as int, v, j);
                    assert(out@ =~= v.take(j + 1));
                    j = j + 1;
                }
            }
            i = i + 1;
        }
    }
    proof {
        if valid {
            if j < v.len() {
                lemma_escaped_at(s@, start as int, v, j);
            }
            assert(v.take(j) =~= v);
        }
    }
    Ok((out, n))
}

fn digit_value(c: char) -> (r: Option<u64>)
    ensures
        r matches Some(d) ==> d < 10 && digit_char(d as nat) == c,
        r is None ==> !('0' <= c && c <= '9'),
{
    if c == '0' { Some(0) }
    else if c == '1' { Some(1) }
    else if c == '2' { Some(2) }
    else if c == '3' { Some(3) }
    else if c == '4' { Some(4) }
    else if c == '5' { Some(5) }
    else if c == '6' { Some(6) }
    else if c == '7' { Some(7) }
    else if c == '8' { Some(8) }
    else if c == '9' { Some(9) }
    else { None }
}

/// The number `v` is written at `start` of `s`, ending at the end or at a tab.
pub open spec fn number_at(s: Seq<char>, start: int, v: u64) -> bool {
    let e = start + decimal(v as nat).len();
    &&& 0 <= start
    &&& e <= s.len()
    &&& s.subrange(start, e) == decimal(v as nat)
    &&& (e == s.len() || s[e] == '\t')
}

fn parse_decimal(s: &str, start: usize, n: usize, Ghost(w): Ghost<Option<u64>>) -> (r: Result<(u64, usize), ManifestError>)
    requires
        n == s@.len(),
        start <= n,
    ensures
        r matches Ok((v, end)) ==> start < end <= n && (end == n || s@[end as int] == '\t')
            && decimal(v as nat) == s@.subrange(start as int, end as int),
        forall|v: u64| w == Some(v) && #[trigger] number_at(s@, start as int, v) ==> (r matches Ok((o, end)) && o == v
            && end == start + decimal(v as nat).len()),
{
    let ghost valid = w matches Some(vv) && number_at(s@, start as int, vv);
    let ghost v: u64 = match w { Some(vv) => vv, None => 0 };
    let ghost e: int = start + decimal(v as nat).len();
    proof {
        lemma_decimal_facts(v as nat);
        lemma_digit_chars();
        if valid {
            assert(s@[start as int] == s@.subrange(start as int, e)[0]);
        }
    }
    if start == n {
        return Err(ManifestError::BadLength);
    }
    let first = match digit_value(s.get_char(start)) {
        Some(d) => d,
        None => return Err(ManifestError::BadLength),
    };
    let mut cur: u64 = first;
    let mut i: usize = start + 1;
    assert(s@.subrange(start as int, i as int) =~= seq![s@[start as int]]);
    while i < n
        invariant
            n == s@.len(),
            start < i <= n,
            decimal(cur as nat) == s@.subrange(start as int, i as int),
            first == 0 ==> cur == 0 && i == start + 1,
            first > 0 ==> cur > 0,
            valid == (w matches Some(vv) && number_at(s@, start as int, vv)),
            valid ==> w == Some(v) && e == start + decimal(v as nat).len() && i <= e,
            e == start + decimal(v as nat).len(),
            forall|q: int| 0 <= q < decimal(v as nat).len() ==> '0' <= #[trigger] decimal(v as nat)[q] <= '9',
            v >= 1 ==> decimal(v as nat)[0] != '0',
            v < 10 ==> decimal(v as nat).len() == 1,
        decreases n - i,
    {
        let c = s.get_char(i);
        proof {
            lemma_digit_chars();
            if valid && i < e {
                assert(s@[i as int] == s@.subrange(start as int, e)[i - start]);
                assert(s@.subrange(start as int, i as int) =~= s@.subrange(start as int, e).subrange(0, i - start));
                lemma_decimal_prefix(cur as nat, v as nat);
                if first == 0 {
                    assert(s@[start as int] == '0');
                    assert(decimal(v as nat)[0] == s@.subrange(start as int, e)[0]);
                }
            }
            if valid && i == e {
                assert(s@.subrange(start as int, i as int) == decimal(v as nat));
                assert(decimal(v as nat).subrange(0, decimal(cur as nat).len() as int) =~= decimal(cur as nat));
                lemma_decimal_prefix(cur as nat, v as nat);
            }
        }
        if c == '\t' {
            return Ok((cur, i));
        }
        let d = match digit_value(c) {
            Some(d) => d,
            None => return Err(ManifestError::BadLength),
        };
        if first == 0 {
            return Err(ManifestError::BadLength);
        }
        proof {
            if valid {
                lemma_decimal_push(cur as nat, d as nat);
                assert(s@.subrange(start as int, i + 1) =~= s@.subrange(start as int, i as int) + seq![c]);
                assert(decimal((10 * cur + d) as nat) == s@.subrange(start as int, i + 1));
                assert(s@.subrange(start as int, i + 1) =~= s@.subrange(start as int, e).subrange(0, i + 1 - start));
                lemma_decimal_prefix((10 * cur + d) as nat, v as nat);
            }
        }
        if cur > (u64::MAX - d) / 10 {
            return Err(ManifestError::BadLength);
        }
        let ghost old_cur = cur;
        cur = cur * 10 + d;
        proof {
            assert(cur >= 10);
            assert((cur as nat) / 10 == old_cur as nat);
            assert((cur as nat) % 10 == d as nat);
            assert(s@.subrange(start as int, i + 1) =~= s@.subrange(start as int, i as int) + seq![c]);
        }
        i = i + 1;
    }
    proof {
        if valid {
            assert(i == e);
            assert(s@.subrange(start as int, i as int) == decimal(v as nat));
            assert(decimal(v as nat).subrange(0, decimal(cur as nat).len() as int) =~= decimal(cur as nat));
            lemma_decimal_prefix(cur as nat, v as nat);
        }
    }
    Ok((cur, n))
}

/// The optional field `o` is written at `start` of `s`, ending at the end or at a tab.
pub open spec fn opt_at(s: Seq<char>, start: int, o: Option<Seq<char>>) -> bool {
    let e = start + opt_field(o).len();
    &&& 0 <= start
    &&& e <= s.len()
    &&& s.subrange(start, e) == opt_field(o)
    &&& (e == s.len() || s[e] == '\t')
}

fn parse_opt(s: &str, start: usize, n: usize, Ghost(w): Ghost<Option<Option<Seq<char>>>>) -> (r: Result<(Option<String>, usize), ManifestError>)
    requires
        n == s@.len(),
        start <= n,
    ensures
        r matches Ok((v, end)) ==> start <= end <= n && (end == n || s@[end as int] == '\t')
            && opt_field(opt_text(v)) == s@.subrange(start as int, end as int),
        forall|o: Option<Seq<char>>| w == Some(o) && #[trigger] opt_at(s@, start as int, o) ==> (r matches Ok((x, end))
            && end == start + opt_field(o).len()),
{
    let ghost o: Option<Seq<char>> = match w { Some(x) => x, None => None };
    let ghost valid = w matches Some(x) && opt_at(s@, start as int, x);
    proof {
        if valid {
            let e = start + opt_field(o).len();
            match o {
                Some(v) => {
                    lemma_escape_has_no_tab(v);
                    assert(field_at(s@, start as int, v));
                    if v.len() == 0 {
                        assert(escape(v).len() == 0);
                    } else {
                        lemma_escape_front(v, 0);
                        assert(v.take(0) =~= Seq::<char>::empty());
                        assert(escape(v.take(0)) == Seq::<char>::empty());
                        assert(escape(v.take(1)).len() >= 1);
                        lemma_escape_split(v, 1);
                        if escape(v).len() >= 2 {
                            assert(s@[start + 1] == s@.subrange(start as int, e)[1]);
                        }
                        assert(s@[start as int] == s@.subrange(start as int, e)[0]);
                    }
                },
                None => {
                    assert(s@[start as int] == s@.subrange(start as int, e)[0]);
                },
            }
        }
    }
    if n - start >= 1 && s.get_char(start) == '-' && (n - start == 1 || s.get_char(start + 1) == '\t') {
        assert(s@.subrange(start as int, start + 1) =~= seq!['-']);
        proof {
            if valid {
                if let Some(v) = o {
                    if escape(v).len() >= 2 {
                        assert(s@[start + 1] != '\t');
                    }
                    assert(escape(v).len() >= 1);
                }
            }
        }
        return Ok((None, start + 1));
    }
    let wv: Ghost<Option<Seq<char>>> = Ghost(match o { Some(v) => Some(v), None => None });
    proof {
        if valid {
            if let Some(v) = o {
                assert(field_at(s@, start as int, v));
            }
        }
    }
    match parse_escaped(s, start, n, wv) {
        Ok((v, end)) => Ok((Some(v), end)),
        Err(e) => Err(e),
    }
}

/// `l` is the record of some file.
pub open spec fn is_manifest_line(l: Seq<char>) -> bool {
    exists|p: Seq<char>, n: u64, h: Option<Seq<char>>, m: Option<Seq<char>>| #[trigger] manifest_line(p, n, h, m) == l
}

/// Reads one manifest record (without its newline). What is read is what
/// `format_manifest_line` writes for it, and every record so written is read.
pub fn parse_manifest_line(line: &str) -> (r: Result<RemoteFileItem, ManifestError>)
    ensures
        r matches Ok(item) ==> item_line(item) == line@,
        is_manifest_line(line@) ==> r is Ok,
{
    let ghost valid = is_manifest_line(line@);
    let ghost mut wp: Option<Seq<char>> = None;
    let ghost mut wl: Option<u64> = None;
    let ghost mut wh: Option<Option<Seq<char>>> = None;
    let ghost mut wm: Option<Option<Seq<char>>> = None;
    let ghost mut x1: int = 0;
    let ghost mut x2: int = 0;
    let ghost mut x3: int = 0;
    proof {
        if valid {
            let (p0, n0, h0, m0) = choose|p: Seq<char>, n: u64, h: Option<Seq<char>>, m: Option<Seq<char>>| #[trigger] manifest_line(p, n, h, m) == line@;
            wp = Some(p0);
            wl = Some(n0);
            wh = Some(h0);
            wm = Some(m0);
            let l = line@;
            let a = escape(p0);
            let d = decimal(n0 as nat);
            let f = opt_field(h0);
            let g = opt_field(m0);
            x1 = a.len() as int;
            x2 = x1 + 1 + d.len();
            x3 = x2 + 1 + f.len();
            assert(l == a + seq!['\t'] + d + seq!['\t'] + f + seq!['\t'] + g);
            assert(l.subrange(0, x1) =~= a);
            assert(l[x1] == '\t');
            assert(l.subrange(x1 + 1, x2) =~= d);
            assert(l[x2] == '\t');
            assert(l.subrange(x2 + 1, x3) =~= f);
            assert(l[x3] == '\t');
            assert(l.subrange(x3 + 1, l.len() as int) =~= g);
            assert(field_at(l, 0, p0));
            assert(number_at(l, x1 + 1, n0));
            assert(opt_at(l, x2 + 1, h0));
            assert(opt_at(l, x3 + 1, m0));
        }
    }
    let n = line.unicode_len();
    let (path, e1) = match parse_escaped(line, 0, n, Ghost(wp)) {
        Ok(p) => p,
        Err(e) => return Err(e),
    };
    if e1 == n {
        return Err(ManifestError::FieldCount);
    }
    let (len, e2) = match parse_decimal(line, e1 + 1, n, Ghost(wl)) {
        Ok(p) => p,
        Err(e) => return Err(e),
    };
    if e2 == n {
        return Err(ManifestError::FieldCount);
    }
    let (sha1, e3) = match parse_opt(line, e2 + 1, n, Ghost(wh)) {
        Ok(p) => p,
        Err(e) => return Err(e),
    };
    if e3 == n {
        return Err(ManifestError::FieldCount);
    }
    let (modified, e4) = match parse_opt(line, e3 + 1, n, Ghost(wm)) {
        Ok(p) => p,
        Err(e) => return Err(e),
    };
    if e4 != n {
        return Err(ManifestError::FieldCount);
    }
    let item = RemoteFileItem { path, len, sha1, modified };
    proof {
        let l = line@;
        assert(l =~= l.subrange(0, e1 as int) + seq![l[e1 as int]] + l.subrange(e1 + 1, e2 as int) + seq![l[e2 as int]]
            + l.subrange(e2 + 1, e3 as int) + seq![l[e3 as int]] + l.subrange(e3 + 1, n as int));
    }
    Ok(item)
}

} // verus!

verus! {

proof fn lemma_escape_append(a: Seq<char>, b: Seq<char>)
    ensures
        escape(a + b) == escape(a) + escape(b),
    decreases b.len(),
{
    if b.len() == 0 {
        assert(a + b =~= a);
        assert(escape(a) + escape(b) =~= escape(a));
    } else {
        lemma_escape_append(a, b.drop_last());
        assert((a + b).drop_last() =~= a + b.drop_last());
        assert((a + b).last() == b.last());
        assert(escape(a) + escape(b.drop_last()) + escape_char(b.last()) =~= escape(a) + (escape(b.drop_last()) + escape_char(b.last())));
    }
}

proof fn lemma_escape_front(v: Seq<char>, j: int)
    requires
        0 <= j < v.len(),
    ensures
        escape(v.take(j + 1)) == escape(v.take(j)) + escape_char(v[j]),
{
    assert(v.take(j + 1).drop_last() =~= v.take(j));
    assert(v.take(j + 1).last() == v[j]);
}

proof fn lemma_escape_split(v: Seq<char>, j: int)
    requires
        0 <= j <= v.len(),
    ensures
        escape(v) == escape(v.take(j)) + escape(v.skip(j)),
{
    lemma_escape_append(v.take(j), v.skip(j));
    assert(v.take(j) + v.skip(j) =~= v);
}

proof fn lemma_escape_skip_front(v: Seq<char>, j: int)
    requires
        0 <= j < v.len(),
    ensures
        escape(v.skip(j)) == escape_char(v[j]) + escape(v.skip(j + 1)),
{
    lemma_escape_append(seq![v[j]], v.skip(j + 1));
    assert(seq![v[j]] + v.skip(j + 1) =~= v.skip(j));
    let one = seq![v[j]];
    assert(one.drop_last() =~= Seq::<char>::empty());
    assert(one.last() == v[j]);
    assert(escape(one) == escape(one.drop_last()) + escape_char(one.last()));
    assert(escape(Seq::<char>::empty()) == Seq::<char>::empty());
    assert(escape(one) =~= escape_char(v[j]));
}

proof fn lemma_escape_has_no_tab(v: Seq<char>)
    ensures
        forall|i: int| 0 <= i < escape(v).len() ==> escape(v)[i] != '\t' && escape(v)[i] != '\n',
    decreases v.len(),
{
    if v.len() > 0 {
        lemma_escape_has_no_tab(v.drop_last());
        let a = escape(v.drop_last());
        let c = escape_char(v.last());
        assert(escape(v) == a + c);
        assert forall|i: int| 0 <= i < escape(v).len() implies escape(v)[i] != '\t' && escape(v)[i] != '\n' by {
            if i < a.len() {
                assert(escape(v)[i] == a[i]);
            } else {
                assert(escape(v)[i] == c[i - a.len()]);
            }
        }
    }
}

} // verus!

verus! {

proof fn lemma_digit_chars()
    ensures
        forall|d: nat| d < 10 ==> '0' <= #[trigger] digit_char(d) <= '9',
        forall|d: nat| 1 <= d < 10 ==> #[trigger] digit_char(d) != '0',
        forall|a: nat, b: nat| a < 10 && b < 10 && #[trigger] digit_char(a) == #[trigger] digit_char(b) ==> a == b,
{
    let ds = seq!['0', '1', '2', '3', '4', '5', '6', '7', '8', '9'];
    assert(ds[0] == '0' && ds[1] == '1' && ds[2] == '2' && ds[3] == '3' && ds[4] == '4');
    assert(ds[5] == '5' && ds[6] == '6' && ds[7] == '7' && ds[8] == '8' && ds[9] == '9');
}

proof fn lemma_decimal_facts(v: nat)
    ensures
        decimal(v).len() >= 1,
        forall|i: int| 0 <= i < decimal(v).len() ==> '0' <= #[trigger] decimal(v)[i] <= '9',
        v >= 1 ==> decimal(v)[0] != '0',
        v < 10 ==> decimal(v).len() == 1,
        v >= 10 ==> decimal(v).len() >= 2,
    decreases v,
{
    lemma_digit_chars();
    if v >= 10 {
        lemma_decimal_facts(v / 10);
        let p = decimal(v / 10);
        assert(decimal(v) == p + seq![digit_char(v % 10)]);
        assert forall|i: int| 0 <= i < decimal(v).len() implies '0' <= #[trigger] decimal(v)[i] <= '9' by {
            if i < p.len() {
                assert(decimal(v)[i] == p[i]);
            }
        }
        assert(decimal(v)[0] == p[0]);
    }
}

proof fn lemma_decimal_prefix(a: nat, b: nat)
    requires
        decimal(a).len() <= decimal(b).len(),
        decimal(b).subrange(0, decimal(a).len() as int) == decimal(a),
    ensures
        a <= b,
        decimal(a).len() == decimal(b).len() ==> a == b,
    decreases b,
{
    lemma_digit_chars();
    lemma_decimal_facts(a);
    lemma_decimal_facts(b);
    if decimal(a).len() == decimal(b).len() {
        assert(decimal(b).subrange(0, decimal(b).len() as int) =~= decimal(b));
        if b < 10 {
            assert(decimal(a)[0] == decimal(b)[0]);
        } else {
            let pb = decimal(b / 10);
            let pa = decimal(a / 10);
            assert(decimal(a) == pa + seq![digit_char(a % 10)]);
            assert(decimal(b) == pb + seq![digit_char(b % 10)]);
            assert(decimal(a).last() == decimal(b).last());
            assert(pa =~= decimal(a).drop_last());
            assert(pb =~= decimal(b).drop_last());
            assert(pb.subrange(0, pa.len() as int) =~= pa);
            lemma_decimal_prefix(a / 10, b / 10);
        }
    } else {
        let pb = decimal(b / 10);
        assert(decimal(b) == pb + seq![digit_char(b % 10)]);
        assert(pb.subrange(0, decimal(a).len() as int) =~= decimal(b).subrange(0, decimal(a).len() as int));
        lemma_decimal_prefix(a, b / 10);
    }
}

proof fn lemma_decimal_push(x: nat, d: nat)
    requires
        x >= 1,
        d < 10,
    ensures
        decimal(10 * x + d) == decimal(x) + seq![digit_char(d)],
{
    let y = 10 * x + d;
    assert(y / 10 == x);
    assert(y % 10 == d);
}

} // verus!
