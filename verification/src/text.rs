//! Verified text primitives of the descriptor format: UTF-8 decoding, line
//! splitting, field-key normalization, and archive-path matching.

use vstd::prelude::*;
use vstd::string::StrSliceExecFns;

verus! {

/// Appends one character to a string.
///
/// Relies on `String::push`, which appends the given character to the end of
/// the string; vstd gives it no specification.
#[verifier::external_body]
pub(crate) fn push_char(s: &mut String, c: char)
    ensures
        final(s)@ == old(s)@.push(c),
{
    s.push(c)
}

/// What `String::from_utf8` decodes the given bytes to when they are valid
/// UTF-8, and `None` when they are not.
pub uninterp spec fn utf8_decoded(b: Seq<u8>) -> Option<Seq<char>>;

/// Decodes bytes as UTF-8 text.
///
/// Relies on `String::from_utf8`, which returns the decoded string exactly
/// when the bytes are valid UTF-8 and an error otherwise; the result depends
/// on the bytes alone.
#[verifier::external_body]
pub(crate) fn bytes_to_string(b: &Vec<u8>) -> (r: Option<String>)
    ensures
        match r {
            Some(s) => utf8_decoded(b@) == Some(s@),
            None => utf8_decoded(b@) is None,
        },
{
    String::from_utf8(b.clone()).ok()
}

/// The ASCII-lowercased counterpart of a character; characters outside
/// `'A'..='Z'` are unchanged. Field keys of the descriptor format are ASCII.
pub open spec fn lower_char(c: char) -> char {
    if 65 <= c as u32 && c as u32 <= 90 {
        ((c as u32 + 32) as u8) as char
    } else {
        c
    }
}

/// Lowercases one ASCII character, leaving all others unchanged.
pub(crate) fn lower_char_exec(c: char) -> (r: char)
    ensures
        r == lower_char(c),
{
    let u = c as u32;
    if 65 <= u && u <= 90 {
        ((u + 32) as u8) as char
    } else {
        c
    }
}

/// A line with one trailing carriage return removed, as `str::lines` yields
/// it.
pub open spec fn strip_cr(l: Seq<char>) -> Seq<char> {
    if l.len() > 0 && l.last() == '\r' {
        l.drop_last()
    } else {
        l
    }
}

/// The lines of `s` continued from an accumulated partial line `cur`: text is
/// split at `'\n'`, each line loses one trailing `'\r'`, and a final newline
/// does not open an empty last line.
pub open spec fn lines_acc(cur: Seq<char>, s: Seq<char>) -> Seq<Seq<char>>
    decreases s.len(),
{
    if s.len() == 0 {
        if cur.len() == 0 {
            Seq::empty()
        } else {
            seq![strip_cr(cur)]
        }
    } else if s[0] == '\n' {
        seq![strip_cr(cur)] + lines_acc(Seq::empty(), s.drop_first())
    } else {
        lines_acc(cur.push(s[0]), s.drop_first())
    }
}

/// The lines of a text, as `str::lines` yields them.
pub open spec fn lines_of(s: Seq<char>) -> Seq<Seq<char>> {
    lines_acc(Seq::empty(), s)
}

/// Removes one trailing carriage return, if present.
fn strip_cr_exec(line: String) -> (r: String)
    ensures
        r@ == strip_cr(line@),
{
    let n = line.as_str().unicode_len();
    if n > 0 && line.as_str().get_char(n - 1) == '\r' {
        let r = line.as_str().substring_char(0, n - 1).to_owned();
        proof {
            assert(r@ =~= strip_cr(line@));
        }
        r
    } else {
        line
    }
}

/// Splits a text into its lines.
pub fn split_lines(s: &str) -> (r: Vec<String>)
    ensures
        r.deep_view() == lines_of(s@),
{
    let n = s.unicode_len();
    let mut out: Vec<String> = Vec::new();
    let mut cur = String::new();
    let mut i: usize = 0;
    proof {
        assert(s@.skip(0) =~= s@);
        assert(out.deep_view() =~= Seq::<Seq<char>>::empty());
        assert(Seq::<Seq<char>>::empty() + lines_of(s@) =~= lines_of(s@));
    }
    while i < n
        invariant
            i <= n,
            n == s@.len(),
            lines_of(s@) == out.deep_view() + lines_acc(cur@, s@.skip(i as int)),
        decreases n - i,
    {
        let c = s.get_char(i);
        proof {
            assert(s@.skip(i as int)[0] == s@[i as int]);
            assert(s@.skip(i as int).drop_first() =~= s@.skip(i as int + 1));
        }
        if c == '\n' {
            let ghost pre = out.deep_view();
            let ghost line_done = strip_cr(cur@);
            let finished = strip_cr_exec(cur);
            cur = String::new();
            out.push(finished);
            proof {
                assert(out.deep_view() =~= pre.push(line_done));
                assert(pre.push(line_done) + lines_acc(Seq::<char>::empty(), s@.skip(i as int + 1)) =~= pre + (seq![line_done] + lines_acc(Seq::<char>::empty(), s@.skip(i as int + 1))));
            }
        } else {
            push_char(&mut cur, c);
        }
        i = i + 1;
    }
    proof {
        assert(s@.skip(n as int) =~= Seq::<char>::empty());
    }
    if !cur.as_str().is_empty() {
        let ghost pre = out.deep_view();
        let ghost line_done = strip_cr(cur@);
        let finished = strip_cr_exec(cur);
        out.push(finished);
        proof {
            assert(out.deep_view() =~= pre.push(line_done));
            assert(pre.push(line_done) =~= pre + seq![line_done]);
        }
    }
    out
}

/// The normalized field key of a marker line: every `'%'` removed and the
/// remaining characters lowercased.
pub open spec fn norm_key(l: Seq<char>) -> Seq<char>
    decreases l.len(),
{
    if l.len() == 0 {
        Seq::empty()
    } else {
        let r = norm_key(l.drop_last());
        if l.last() == '%' {
            r
        } else {
            r.push(lower_char(l.last()))
        }
    }
}

/// Computes the normalized field key of a marker line.
pub fn normalize_key(line: &str) -> (r: String)
    ensures
        r@ == norm_key(line@),
{
    let n = line.unicode_len();
    let mut out = String::new();
    let mut i: usize = 0;
    while i < n
        invariant
            i <= n,
            n == line@.len(),
            out@ == norm_key(line@.take(i as int)),
        decreases n - i,
    {
        let c = line.get_char(i);
        proof {
            assert(line@.take(i as int + 1).drop_last() =~= line@.take(i as int));
            assert(line@.take(i as int + 1).last() == line@[i as int]);
        }
        if c != '%' {
            let lowered = lower_char_exec(c);
            push_char(&mut out, lowered);
        }
        i = i + 1;
    }
    proof {
        assert(line@.take(n as int) =~= line@);
    }
    out
}

/// Whether a line opens a new field block: it begins with `'%'`.
pub open spec fn is_marker(l: Seq<char>) -> bool {
    l.len() > 0 && l[0] == '%'
}

/// Tests whether a line opens a new field block.
pub fn is_marker_line(line: &str) -> (r: bool)
    ensures
        r == is_marker(line@),
{
    !line.is_empty() && line.get_char(0) == '%'
}

/// The path with trailing separators removed.
pub open spec fn trim_slashes(p: Seq<char>) -> Seq<char>
    decreases p.len(),
{
    if p.len() > 0 && p.last() == '/' {
        trim_slashes(p.drop_last())
    } else {
        p
    }
}

/// Whether an archive entry path names a descriptor file: its last path
/// segment, ignoring trailing separators, is exactly `desc`.
pub open spec fn is_desc_path(p: Seq<char>) -> bool {
    let q = trim_slashes(p);
    &&& q.len() >= 4
    &&& q[q.len() - 4] == 'd'
    &&& q[q.len() - 3] == 'e'
    &&& q[q.len() - 2] == 's'
    &&& q[q.len() - 1] == 'c'
    &&& (q.len() == 4 || q[q.len() - 5] == '/')
}

/// Tests whether an archive entry path names a descriptor file.
pub fn is_desc_name(path: &str) -> (r: bool)
    ensures
        r == is_desc_path(path@),
{
    let n = path.unicode_len();
    let mut t: usize = n;
    proof {
        assert(path@.take(n as int) =~= path@);
    }
    while t > 0 && path.get_char(t - 1) == '/'
        invariant
            t <= n,
            n == path@.len(),
            trim_slashes(path@) == trim_slashes(path@.take(t as int)),
        decreases t,
    {
        proof {
            assert(path@.take(t as int).last() == path@[t as int - 1]);
            assert(path@.take(t as int).drop_last() =~= path@.take(t as int - 1));
        }
        t = t - 1;
    }
    proof {
        if t > 0 {
            assert(path@.take(t as int).last() == path@[t as int - 1]);
        }
        assert(trim_slashes(path@.take(t as int)) =~= path@.take(t as int));
    }
    if t < 4 {
        return false;
    }
    let r = path.get_char(t - 4) == 'd' && path.get_char(t - 3) == 'e' && path.get_char(t - 2)
        == 's' && path.get_char(t - 1) == 'c' && (t == 4 || path.get_char(t - 5) == '/');
    proof {
        assert(forall|j: int| 0 <= j < t ==> path@.take(t as int)[j] == path@[j]);
    }
    r
}

} // verus!
