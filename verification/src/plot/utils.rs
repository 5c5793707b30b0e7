//! File names made from free-form names.

use vstd::prelude::*;

verus! {

/// An ASCII letter or digit.
pub open spec fn is_alphanumeric(c: char) -> bool {
    ('0' <= c && c <= '9') || ('a' <= c && c <= 'z') || ('A' <= c && c <= 'Z')
}

/// The lower-case form of an ASCII letter; any other character itself.
pub open spec fn lower(c: char) -> char {
    if 'A' <= c && c <= 'Z' {
        ((c as u8 + 32) as u8) as char
    } else {
        c
    }
}

/// The name with its letters in lower case and every run of other
/// characters turned into one dash.
pub open spec fn dashed(s: Seq<char>) -> Seq<char>
    decreases s.len(),
{
    if s.len() == 0 {
        Seq::empty()
    } else if is_alphanumeric(s.last()) {
        dashed(s.drop_last()).push(lower(s.last()))
    } else if s.len() >= 2 && !is_alphanumeric(s[s.len() - 2]) {
        dashed(s.drop_last())
    } else {
        dashed(s.drop_last()).push('-')
    }
}

/// Where the text starts once a dash in front is left out.
pub open spec fn trim_start(t: Seq<char>) -> int {
    if t.len() > 0 && t[0] == '-' {
        1
    } else {
        0
    }
}

/// Where the text ends once a dash at the end is left out.
pub open spec fn trim_end(t: Seq<char>) -> int {
    if t.len() > trim_start(t) && t.last() == '-' {
        t.len() - 1
    } else {
        t.len() as int
    }
}

/// The file name for `s`: letters in lower case, every run of
/// characters that are no ASCII letters or digits turned into one dash,
/// and no dash in front or at the end.
pub open spec fn normalized(s: Seq<char>) -> Seq<char> {
    let t = dashed(s);
    t.subrange(trim_start(t), trim_end(t))
}

/// The dashed name ends in a dash exactly where the name ends in a
/// character that is no ASCII letter or digit.
pub proof fn lemma_dashed_last(s: Seq<char>)
    requires
        s.len() > 0,
    ensures
        dashed(s).len() > 0,
        dashed(s).last() == '-' <==> !is_alphanumeric(s.last()),
    decreases s.len(),
{
    if !is_alphanumeric(s.last()) && s.len() >= 2 && !is_alphanumeric(s[s.len() - 2]) {
        assert(s.drop_last().last() == s[s.len() - 2]);
        lemma_dashed_last(s.drop_last());
    }
}

/// The dashed name never holds two dashes in a row.
pub proof fn lemma_dashed_single(s: Seq<char>, i: int)
    requires
        0 <= i,
        i + 1 < dashed(s).len(),
    ensures
        !(dashed(s)[i] == '-' && dashed(s)[i + 1] == '-'),
    decreases s.len(),
{
    if s.len() > 0 {
        let front = dashed(s.drop_last());
        if i + 1 < front.len() {
            lemma_dashed_single(s.drop_last(), i);
        } else if !is_alphanumeric(s.last()) {
            if s.len() >= 2 {
                assert(s.drop_last().last() == s[s.len() - 2]);
                lemma_dashed_last(s.drop_last());
            }
        }
    }
}

/// A file name neither starts nor ends with a dash.
pub proof fn lemma_normalized_trimmed(s: Seq<char>)
    ensures
        normalized(s).len() > 0 ==> normalized(s)[0] != '-' && normalized(s).last() != '-',
{
    let t = dashed(s);
    let n = normalized(s);
    if n.len() > 0 {
        assert(n[0] == t[trim_start(t)]);
        assert(n.last() == t[trim_end(t) - 1]);
        if trim_start(t) == 1 {
            lemma_dashed_single(s, 0);
        }
        if trim_end(t) == t.len() - 1 {
            lemma_dashed_single(s, t.len() - 2);
        }
    }
}

/// Collects the characters into a `String`, with `String::from_iter`:
/// the string holds these characters in this order.
#[verifier::external_body]
fn string_from_chars(chars: &Vec<char>) -> (r: String)
    ensures
        r@ == chars@,
{
    String::from_iter(chars.iter())
}

fn is_alphanumeric_char(c: char) -> (r: bool)
    ensures
        r == is_alphanumeric(c),
{
    ('0' <= c && c <= '9') || ('a' <= c && c <= 'z') || ('A' <= c && c <= 'Z')
}

fn lower_char(c: char) -> (r: char)
    ensures
        r == lower(c),
{
    if 'A' <= c && c <= 'Z' {
        ((c as u8 + 32) as u8) as char
    } else {
        c
    }
}

/// Makes a file name out of `s`.
pub fn normalize_filename(s: &str) -> (r: String)
    ensures
        r@ == normalized(s@),
{
    let n = s.unicode_len();
    let mut t: Vec<char> = Vec::new();
    let mut replaced = false;
    let mut i: usize = 0;
    while i < n
        invariant
            i <= n,
            n == s@.len(),
            t@ == dashed(s@.take(i as int)),
            replaced == (i > 0 && !is_alphanumeric(s@[i - 1])),
        decreases n - i,
    {
        let c = s.get_char(i);
        proof {
            let next = s@.take(i + 1);
            assert(next.drop_last() =~= s@.take(i as int));
            assert(next.last() == c);
            if i > 0 {
                assert(next[next.len() - 2] == s@[i - 1]);
            }
        }
        if is_alphanumeric_char(c) {
            t.push(lower_char(c));
        } else if !replaced {
            t.push('-');
        }
        replaced = !is_alphanumeric_char(c);
        i = i + 1;
    }
    assert(s@.take(n as int) =~= s@);
    let mut from: usize = 0;
    if t.len() > 0 && t[0] == '-' {
        from = 1;
    }
    let mut to: usize = t.len();
    if t.len() > from && t[t.len() - 1] == '-' {
        to = t.len() - 1;
    }
    let mut kept: Vec<char> = Vec::new();
    let mut j: usize = from;
    while j < to
        invariant
            from <= j <= to <= t@.len(),
            kept@ == t@.subrange(from as int, j as int),
        decreases to - j,
    {
        kept.push(t[j]);
        assert(kept@ =~= t@.subrange(from as int, j + 1));
        j = j + 1;
    }
    string_from_chars(&kept)
}

} // verus!
