//! Character-level text helpers shared by the parsers.

use vstd::prelude::*;

verus! {

broadcast use vstd::string::group_string_axioms;

/// The empty string, with its view pinned to the empty sequence.
pub fn empty_str() -> (r: &'static str)
    ensures
        r@ == Seq::<char>::empty(),
{
    proof {
        reveal_strlit("");
        assert(""@ =~= Seq::<char>::empty());
    }
    ""
}

/// Relies on `String::push`: appends exactly the one character to the end
/// of the string.
pub assume_specification[ String::push ](s: &mut String, ch: char)
    ensures
        final(s)@ == old(s)@.push(ch),
;

/// Relies on `String::push_str`: appends exactly the given characters to
/// the end of the string.
pub assume_specification[ String::push_str ](s: &mut String, other: &str)
    ensures
        final(s)@ == old(s)@ + other@,
;

/// Compares two strings by value.
pub fn str_eq(a: &String, b: &String) -> (r: bool)
    ensures
        r == (a@ == b@),
{
    a.eq(b)
}

/// The numeric value of a digit sequence, most significant digit first.
pub open spec fn spec_digits_val(s: Seq<char>) -> int
    decreases s.len(),
{
    if s.len() == 0 {
        0
    } else {
        spec_digits_val(s.drop_last()) * 10 + (s.last() as u32 - 48)
    }
}

/// Whether every character is a decimal digit.
pub open spec fn all_digits(s: Seq<char>) -> bool {
    forall|j: int| 0 <= j < s.len() ==> 48 <= (#[trigger] s[j]) as u32 <= 57
}

/// Whether `s` starts with `prefix`, by characters.
pub open spec fn spec_starts_with(s: Seq<char>, prefix: Seq<char>) -> bool {
    s.len() >= prefix.len() && s.take(prefix.len() as int) == prefix
}

/// Whether `pat` occurs in `s` at position `i`.
pub open spec fn spec_match_at(s: Seq<char>, pat: Seq<char>, i: int) -> bool {
    0 <= i && i + pat.len() <= s.len() && s.subrange(i, i + pat.len()) == pat
}

/// The first position where `pat` occurs in `s`, if any.
pub open spec fn spec_find(s: Seq<char>, pat: Seq<char>) -> Option<int>
    decreases s.len(),
{
    if pat.len() > s.len() {
        None
    } else if spec_match_at(s, pat, 0) {
        Some(0)
    } else if s.len() == 0 {
        None
    } else {
        match spec_find(s.drop_first(), pat) {
            Some(i) => Some(i + 1),
            None => None,
        }
    }
}

/// What a successful [`spec_find`] means: the pattern occurs there and
/// nowhere earlier.
pub proof fn lemma_find_props(s: Seq<char>, pat: Seq<char>)
    ensures
        match spec_find(s, pat) {
            Some(i) => 0 <= i && i + pat.len() <= s.len() && spec_match_at(s, pat, i)
                && forall|j: int| 0 <= j < i ==> !spec_match_at(s, pat, j),
            None => forall|j: int| !spec_match_at(s, pat, j),
        },
    decreases s.len(),
{
    if pat.len() > s.len() {
    } else if spec_match_at(s, pat, 0) {
    } else if s.len() == 0 {
        assert forall|j: int| !spec_match_at(s, pat, j) by {
            if spec_match_at(s, pat, j) {
                assert(j == 0);
            }
        }
    } else {
        let t = s.drop_first();
        assert(forall|j: int| 0 <= j < t.len() ==> t[j] == s[j + 1]);
        lemma_find_props(t, pat);
        match spec_find(t, pat) {
            Some(i) => {
                assert(spec_match_at(s, pat, i + 1)) by {
                    assert(s.subrange(i + 1, i + 1 + pat.len()) =~= t.subrange(i, i + pat.len()));
                }
                assert forall|j: int| 0 <= j < i + 1 implies !spec_match_at(s, pat, j) by {
                    if j > 0 && spec_match_at(s, pat, j) {
                        assert(t.subrange(j - 1, j - 1 + pat.len()) =~= s.subrange(
                            j,
                            j + pat.len(),
                        ));
                        assert(spec_match_at(t, pat, j - 1));
                    }
                }
            },
            None => {
                assert forall|j: int| !spec_match_at(s, pat, j) by {
                    if j > 0 && spec_match_at(s, pat, j) {
                        assert(t.subrange(j - 1, j - 1 + pat.len()) =~= s.subrange(
                            j,
                            j + pat.len(),
                        ));
                        assert(spec_match_at(t, pat, j - 1));
                    }
                }
            },
        }
    }
}

/// A scan that stops at the first occurrence computes [`spec_find`].
pub proof fn lemma_find_at(s: Seq<char>, pat: Seq<char>, i: int)
    requires
        spec_match_at(s, pat, i),
        forall|j: int| 0 <= j < i ==> !spec_match_at(s, pat, j),
    ensures
        spec_find(s, pat) == Some(i),
    decreases s.len(),
{
    if i == 0 {
    } else {
        let t = s.drop_first();
        assert(forall|j: int| 0 <= j < t.len() ==> t[j] == s[j + 1]);
        assert(spec_match_at(t, pat, i - 1)) by {
            assert(t.subrange(i - 1, i - 1 + pat.len()) =~= s.subrange(i, i + pat.len()));
        }
        assert forall|j: int| 0 <= j < i - 1 implies !spec_match_at(t, pat, j) by {
            if spec_match_at(t, pat, j) {
                assert(s.subrange(j + 1, j + 1 + pat.len()) =~= t.subrange(j, j + pat.len()));
                assert(spec_match_at(s, pat, j + 1));
            }
        }
        lemma_find_at(t, pat, i - 1);
        assert(!spec_match_at(s, pat, 0));
    }
}

/// A scan that finds no occurrence leaves [`spec_find`] empty.
pub proof fn lemma_find_none(s: Seq<char>, pat: Seq<char>)
    requires
        forall|j: int| 0 <= j <= s.len() - pat.len() ==> !spec_match_at(s, pat, j),
    ensures
        spec_find(s, pat) is None,
    decreases s.len(),
{
    if pat.len() <= s.len() && s.len() > 0 {
        let t = s.drop_first();
        assert(forall|j: int| 0 <= j < t.len() ==> t[j] == s[j + 1]);
        assert forall|j: int| 0 <= j <= t.len() - pat.len() implies !spec_match_at(t, pat, j) by {
            if spec_match_at(t, pat, j) {
                assert(s.subrange(j + 1, j + 1 + pat.len()) =~= t.subrange(j, j + pat.len()));
                assert(spec_match_at(s, pat, j + 1));
            }
        }
        lemma_find_none(t, pat);
    }
}

/// Whether `s` starts with `prefix`.
#[verifier::loop_isolation(false)]
pub fn starts_with(s: &str, prefix: &str) -> (r: bool)
    ensures
        r == spec_starts_with(s@, prefix@),
{
    let n = s.unicode_len();
    let m = prefix.unicode_len();
    if m > n {
        proof {
            assert(!spec_starts_with(s@, prefix@));
        }
        return false;
    }
    let mut i: usize = 0;
    while i < m
        invariant
            0 <= i <= m <= n,
            forall|j: int| 0 <= j < i ==> s@[j] == prefix@[j],
        decreases m - i,
    {
        if s.get_char(i) != prefix.get_char(i) {
            proof {
                if spec_starts_with(s@, prefix@) {
                    assert(s@.take(prefix@.len() as int)[i as int] == prefix@[i as int]);
                }
            }
            return false;
        }
        i += 1;
    }
    proof {
        assert(s@.take(prefix@.len() as int) =~= prefix@);
    }
    true
}

/// Whether `pat` occurs in `s` at position `at`.
#[verifier::loop_isolation(false)]
fn match_at(s: &str, pat: &str, at: usize) -> (r: bool)
    requires
        at + pat@.len() <= s@.len(),
        at + pat@.len() <= usize::MAX,
    ensures
        r == spec_match_at(s@, pat@, at as int),
{
    let m = pat.unicode_len();
    let mut i: usize = 0;
    while i < m
        invariant
            0 <= i <= m,
            at + m <= s@.len(),
            forall|j: int| 0 <= j < i ==> s@[at + j] == pat@[j],
        decreases m - i,
    {
        if s.get_char(at + i) != pat.get_char(i) {
            proof {
                if spec_match_at(s@, pat@, at as int) {
                    assert(s@.subrange(at as int, at + pat@.len())[i as int] == pat@[i as int]);
                }
            }
            return false;
        }
        i += 1;
    }
    proof {
        assert(s@.subrange(at as int, at + pat@.len()) =~= pat@);
    }
    true
}

/// The first position where `pat` occurs in `s`.
#[verifier::loop_isolation(false)]
pub fn find_sub(s: &str, pat: &str) -> (r: Option<usize>)
    ensures
        match r {
            Some(i) => spec_find(s@, pat@) == Some(i as int),
            None => spec_find(s@, pat@) is None,
        },
{
    let n = s.unicode_len();
    let m = pat.unicode_len();
    if m > n {
        proof {
            lemma_find_none(s@, pat@);
        }
        return None;
    }
    let mut i: usize = 0;
    while i <= n - m
        invariant
            0 <= i <= n - m + 1,
            m <= n,
            n == s@.len(),
            m == pat@.len(),
            forall|j: int| 0 <= j < i ==> !spec_match_at(s@, pat@, j),
        decreases n - m - i + 1,
    {
        if match_at(s, pat, i) {
            proof {
                lemma_find_at(s@, pat@, i as int);
            }
            return Some(i);
        }
        if i == n - m {
            break ;
        }
        i += 1;
    }
    proof {
        lemma_find_none(s@, pat@);
    }
    None
}

/// Compares two string slices by value.
#[verifier::loop_isolation(false)]
pub fn str_eq_str(a: &str, b: &str) -> (r: bool)
    ensures
        r == (a@ == b@),
{
    let n = a.unicode_len();
    if n != b.unicode_len() {
        return false;
    }
    let mut i: usize = 0;
    while i < n
        invariant
            i <= n,
            n == a@.len() == b@.len(),
            forall|j: int| 0 <= j < i ==> a@[j] == b@[j],
        decreases n - i,
    {
        if a.get_char(i) != b.get_char(i) {
            return false;
        }
        i += 1;
    }
    proof {
        assert(a@ =~= b@);
    }
    true
}

/// The character a named XML entity stands for.
pub open spec fn spec_entity_char(ent: Seq<char>) -> Option<char> {
    if ent == "amp"@ {
        Some('&')
    } else if ent == "lt"@ {
        Some('<')
    } else if ent == "gt"@ {
        Some('>')
    } else if ent == "quot"@ {
        Some('"')
    } else if ent == "apos"@ {
        Some('\'')
    } else {
        None
    }
}

/// XML text with its named entities decoded; nothing when an ampersand is
/// not followed by a known entity and its semicolon.
pub open spec fn spec_unescape(s: Seq<char>) -> Option<Seq<char>>
    decreases s.len(),
{
    if s.len() == 0 {
        Some(Seq::<char>::empty())
    } else if s[0] == '&' {
        match spec_find(s, ";"@) {
            None => None,
            Some(k) => if 1 <= k < s.len() {
                match spec_entity_char(s.subrange(1, k)) {
                    None => None,
                    Some(c) => match spec_unescape(s.skip(k + 1)) {
                        None => None,
                        Some(t) => Some(seq![c] + t),
                    },
                }
            } else {
                None
            },
        }
    } else {
        match spec_unescape(s.drop_first()) {
            None => None,
            Some(t) => Some(seq![s[0]] + t),
        }
    }
}

/// Decodes the named XML entities of `s`, exactly as [`spec_unescape`]
/// describes.
#[verifier::loop_isolation(false)]
pub fn unescape(s: &str) -> (r: Option<String>)
    ensures
        match r {
            Some(t) => spec_unescape(s@) == Some(t@),
            None => spec_unescape(s@) is None,
        },
{
    proof {
        reveal_strlit(";");
    }
    let n = s.unicode_len();
    let mut out = String::new();
    let mut i: usize = 0;
    proof {
        assert(s@.skip(0) =~= s@);
    }
    while i < n
        invariant
            i <= n,
            n == s@.len(),
            spec_unescape(s@) == (match spec_unescape(s@.skip(i as int)) {
                Some(t) => Some(out@ + t),
                None => None::<Seq<char>>,
            }),
        decreases n - i,
    {
        let c = s.get_char(i);
        let ghost rest = s@.skip(i as int);
        proof {
            assert(rest[0] == s@[i as int]);
        }
        if c == '&' {
            // Scan for the terminating semicolon.
            let mut j: usize = i;
            while j < n
                invariant
                    i <= j <= n,
                    n == s@.len(),
                    forall|t: int| i <= t < j ==> s@[t] != ';',
                decreases n - j,
            {
                if s.get_char(j) == ';' {
                    break ;
                }
                j += 1;
            }
            if j >= n {
                proof {
                    assert forall|t: int| !spec_match_at(rest, ";"@, t) by {
                        if spec_match_at(rest, ";"@, t) {
                            assert(rest.subrange(t, t + 1)[0] == ';');
                            assert(s@[i + t] == ';');
                        }
                    }
                    lemma_find_none(rest, ";"@);
                }
                return None;
            }
            proof {
                assert(spec_match_at(rest, ";"@, j - i)) by {
                    assert(rest.subrange(j - i, j - i + 1) =~= ";"@);
                }
                assert forall|t: int| 0 <= t < j - i implies !spec_match_at(rest, ";"@, t) by {
                    if spec_match_at(rest, ";"@, t) {
                        assert(rest.subrange(t, t + 1)[0] == ';');
                        assert(s@[i + t] == ';');
                    }
                }
                lemma_find_at(rest, ";"@, j - i);
                assert(j - i >= 1);
            }
            let ent = s.substring_char(i + 1, j);
            proof {
                assert(ent@ =~= rest.subrange(1, j - i));
            }
            let ch: char = if str_eq_str(ent, "amp") {
                '&'
            } else if str_eq_str(ent, "lt") {
                '<'
            } else if str_eq_str(ent, "gt") {
                '>'
            } else if str_eq_str(ent, "quot") {
                '"'
            } else if str_eq_str(ent, "apos") {
                '\''
            } else {
                return None;
            };
            proof {
                assert(spec_entity_char(rest.subrange(1, j - i)) == Some(ch));
            }
            out.push(ch);
            proof {
                assert(rest.skip(j - i + 1) =~= s@.skip(j as int + 1));
            }
            i = j + 1;
        } else {
            out.push(c);
            proof {
                assert(rest.drop_first() =~= s@.skip(i as int + 1));
            }
            i += 1;
        }
    }
    proof {
        assert(s@.skip(n as int) =~= Seq::<char>::empty());
        assert(out@ + Seq::<char>::empty() =~= out@);
    }
    Some(out)
}

/// Whether `a` comes no later than `b` in character order: position by
/// position on the scalar values, a shorter prefix first.
pub open spec fn spec_lex_le(a: Seq<char>, b: Seq<char>) -> bool
    decreases a.len(),
{
    if a.len() == 0 {
        true
    } else if b.len() == 0 {
        false
    } else if (a[0] as u32) == (b[0] as u32) {
        spec_lex_le(a.drop_first(), b.drop_first())
    } else {
        (a[0] as u32) < (b[0] as u32)
    }
}

/// The character order is transitive.
pub proof fn lemma_lex_le_trans(a: Seq<char>, b: Seq<char>, c: Seq<char>)
    requires
        spec_lex_le(a, b),
        spec_lex_le(b, c),
    ensures
        spec_lex_le(a, c),
    decreases a.len(),
{
    if a.len() > 0 && b.len() > 0 && c.len() > 0 {
        if (a[0] as u32) == (b[0] as u32) && (b[0] as u32) == (c[0] as u32) {
            lemma_lex_le_trans(a.drop_first(), b.drop_first(), c.drop_first());
        }
    }
}

/// Any two texts are comparable in the character order.
pub proof fn lemma_lex_le_total(a: Seq<char>, b: Seq<char>)
    ensures
        spec_lex_le(a, b) || spec_lex_le(b, a),
    decreases a.len(),
{
    if a.len() > 0 && b.len() > 0 {
        if (a[0] as u32) == (b[0] as u32) {
            lemma_lex_le_total(a.drop_first(), b.drop_first());
        }
    }
}

/// Whether `a` comes no later than `b` in character order.
#[verifier::loop_isolation(false)]
pub fn str_le(a: &str, b: &str) -> (r: bool)
    ensures
        r == spec_lex_le(a@, b@),
{
    let an = a.unicode_len();
    let bn = b.unicode_len();
    let mut i: usize = 0;
    proof {
        assert(a@.skip(0) =~= a@);
        assert(b@.skip(0) =~= b@);
    }
    while i < an && i < bn
        invariant
            i <= an,
            i <= bn,
            an == a@.len(),
            bn == b@.len(),
            spec_lex_le(a@, b@) == spec_lex_le(a@.skip(i as int), b@.skip(i as int)),
        decreases an - i,
    {
        let ca = a.get_char(i) as u32;
        let cb = b.get_char(i) as u32;
        proof {
            assert(a@.skip(i as int)[0] == a@[i as int]);
            assert(b@.skip(i as int)[0] == b@[i as int]);
            assert(a@.skip(i as int).drop_first() =~= a@.skip(i as int + 1));
            assert(b@.skip(i as int).drop_first() =~= b@.skip(i as int + 1));
        }
        if ca != cb {
            return ca < cb;
        }
        i += 1;
    }
    proof {
        if i >= an {
            assert(a@.skip(i as int).len() == 0);
        } else {
            assert(b@.skip(i as int).len() == 0);
            assert(a@.skip(i as int).len() > 0);
        }
    }
    i >= an
}

/// The characters of `s` with every trailing space, tab or carriage return
/// removed.
pub open spec fn spec_trim_end(s: Seq<char>) -> Seq<char>
    decreases s.len(),
{
    if s.len() > 0 && (s.last() == ' ' || s.last() == '\t' || s.last() == '\r') {
        spec_trim_end(s.drop_last())
    } else {
        s
    }
}

/// Removes trailing spaces, tabs and carriage returns.
#[verifier::loop_isolation(false)]
pub fn trim_end(s: &str) -> (r: &str)
    ensures
        r@ == spec_trim_end(s@),
{
    let mut n = s.unicode_len();
    proof {
        assert(s@.take(n as int) =~= s@);
    }
    while n > 0
        invariant
            n <= s@.len(),
            spec_trim_end(s@) == spec_trim_end(s@.take(n as int)),
        decreases n,
    {
        let c = s.get_char(n - 1);
        if !(c == ' ' || c == '\t' || c == '\r') {
            break ;
        }
        proof {
            assert(s@.take(n as int).drop_last() =~= s@.take(n as int - 1));
        }
        n -= 1;
    }
    proof {
        if n > 0 {
            assert(spec_trim_end(s@.take(n as int)) == s@.take(n as int));
        } else {
            assert(s@.take(0) =~= Seq::<char>::empty());
        }
    }
    s.substring_char(0, n)
}

} // verus!
