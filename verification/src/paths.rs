//! Splitting a slash-delimited path into its leading component and the rest.
//!
//! A path is read as: an optional leading `/`, then the first component up to
//! (not including) the next `/`, then the remainder starting at that `/`.
//! Consecutive slashes produce empty components; they are not an error here.

use vstd::prelude::*;

verus! {

/// A path denotes the current directory itself when it is `""` or `"/"`.
pub open spec fn is_root_path(p: Seq<char>) -> bool {
    p.len() == 0 || p == seq!['/']
}

/// Drop one leading slash, if there is one.
pub open spec fn strip_slash(p: Seq<char>) -> Seq<char> {
    if p.len() > 0 && p[0] == '/' {
        p.drop_first()
    } else {
        p
    }
}

/// The prefix of `s` up to (not including) its first slash.
pub open spec fn upto_slash(s: Seq<char>) -> Seq<char>
    decreases s.len(),
{
    if s.len() == 0 || s[0] == '/' {
        Seq::empty()
    } else {
        seq![s[0]] + upto_slash(s.drop_first())
    }
}

/// The suffix of `s` from its first slash on (including that slash), or
/// empty if `s` has no slash.
pub open spec fn from_slash(s: Seq<char>) -> Seq<char>
    decreases s.len(),
{
    if s.len() == 0 {
        Seq::empty()
    } else if s[0] == '/' {
        s
    } else {
        from_slash(s.drop_first())
    }
}

/// The first component of a path: strip one leading slash, then take
/// everything up to the next slash.
pub open spec fn leading_entry_spec(p: Seq<char>) -> Seq<char> {
    upto_slash(strip_slash(p))
}

/// What is left of a path after its first component: strip one leading
/// slash, then take everything from the next slash on (that slash included),
/// or empty if no slash remains.
pub open spec fn remaining_spec(p: Seq<char>) -> Seq<char> {
    from_slash(strip_slash(p))
}

/// If the first `i` characters of `s` are slash-free and position `i` is a
/// slash (or the end), then `upto_slash` is exactly those `i` characters and
/// `from_slash` is the rest.
pub proof fn lemma_split_at_slash(s: Seq<char>, i: int)
    requires
        0 <= i <= s.len(),
        forall|j: int| 0 <= j < i ==> s[j] != '/',
        i == s.len() || s[i] == '/',
    ensures
        upto_slash(s) == s.subrange(0, i),
        from_slash(s) == if i < s.len() {
            s.subrange(i, s.len() as int)
        } else {
            Seq::<char>::empty()
        },
    decreases i,
{
    if i == 0 {
        assert(s.subrange(0, 0) =~= Seq::<char>::empty());
        if i < s.len() {
            assert(s.subrange(0, s.len() as int) =~= s);
        }
    } else {
        assert(s[0] != '/');
        lemma_split_at_slash(s.drop_first(), i - 1);
        assert(upto_slash(s) =~= s.subrange(0, i)) by {
            assert(s.drop_first().subrange(0, i - 1) =~= s.subrange(1, i));
            assert(upto_slash(s) == seq![s[0]] + s.subrange(1, i));
        }
        if i < s.len() {
            assert(s.drop_first().subrange(i - 1, s.drop_first().len() as int) =~= s.subrange(
                i,
                s.len() as int,
            ));
        }
    }
}

/// The remainder suffix never grows past the string it was cut from.
pub proof fn lemma_from_slash_len(s: Seq<char>)
    ensures
        from_slash(s).len() <= s.len(),
    decreases s.len(),
{
    if s.len() > 0 && s[0] != '/' {
        lemma_from_slash_len(s.drop_first());
    }
}

/// Taking the remaining path strictly shortens any non-empty path, so a
/// walk that repeatedly takes the remainder terminates.
pub proof fn lemma_remaining_shorter(p: Seq<char>)
    requires
        p.len() > 0,
    ensures
        remaining_spec(p).len() < p.len(),
{
    lemma_from_slash_len(p.drop_first());
}

/// A slash-free string is all leading entry and leaves no remainder.
pub proof fn lemma_no_slash(s: Seq<char>)
    requires
        forall|j: int| 0 <= j < s.len() ==> s[j] != '/',
    ensures
        upto_slash(s) == s,
        from_slash(s) == Seq::<char>::empty(),
{
    lemma_split_at_slash(s, s.len() as int);
    assert(s.subrange(0, s.len() as int) =~= s);
}

/// Scan a path for the bounds of its first component: `r.0` is the index
/// just past the optional leading slash, `r.1` the index of the next slash
/// (or the end).
fn slash_scan(path: &str) -> (r: (usize, usize))
    ensures
        r.0 <= r.1 <= path@.len(),
        strip_slash(path@) == path@.subrange(r.0 as int, path@.len() as int),
        leading_entry_spec(path@) == path@.subrange(r.0 as int, r.1 as int),
        remaining_spec(path@) == if r.1 < path@.len() {
            path@.subrange(r.1 as int, path@.len() as int)
        } else {
            Seq::<char>::empty()
        },
{
    let n: usize = path.unicode_len();
    let start: usize = if n > 0 && path.get_char(0) == '/' {
        1
    } else {
        0
    };
    proof {
        assert(strip_slash(path@) =~= path@.subrange(start as int, n as int));
    }
    let mut i: usize = start;
    while i < n && path.get_char(i) != '/'
        invariant
            start <= i <= n,
            n == path@.len(),
            forall|j: int| start <= j < i ==> path@[j] != '/',
        decreases n - i,
    {
        i = i + 1;
    }
    proof {
        let s = strip_slash(path@);
        assert(forall|j: int| 0 <= j < i - start ==> s[j] != '/');
        lemma_split_at_slash(s, i - start);
        assert(s.subrange(0, i - start) =~= path@.subrange(start as int, i as int));
        if i < n {
            assert(s.subrange(i - start, s.len() as int) =~= path@.subrange(i as int, n as int));
        }
    }
    (start, i)
}

/// Strip one leading `/` if present, then return the substring up to (not
/// including) the next `/`, or the whole remainder if none.
pub fn get_leading_entry<'a>(path: &'a str) -> (r: &'a str)
    ensures
        r@ == leading_entry_spec(path@),
{
    let (start, i) = slash_scan(path);
    path.substring_char(start, i)
}

/// Strip one leading `/` if present, then return the substring starting at
/// the next `/` (that slash included), or the empty string if none remains.
pub fn get_remaining<'a>(path: &'a str) -> (r: &'a str)
    ensures
        r@ == remaining_spec(path@),
{
    let (_, i) = slash_scan(path);
    let n: usize = path.unicode_len();
    if i < n {
        path.substring_char(i, n)
    } else {
        proof {
            reveal_strlit("");
            assert(""@ =~= Seq::<char>::empty());
        }
        ""
    }
}

/// Does this path denote the current directory itself (`""` or `"/"`)?
pub(crate) fn path_is_root(path: &str) -> (b: bool)
    ensures
        b == is_root_path(path@),
{
    let n: usize = path.unicode_len();
    if n == 0 {
        true
    } else if n == 1 {
        let c = path.get_char(0);
        proof {
            if c == '/' {
                assert(path@ =~= seq!['/']);
            } else {
                assert(path@ != seq!['/']) by {
                    if path@ == seq!['/'] {
                        assert(path@[0] == '/');
                    }
                }
            }
        }
        c == '/'
    } else {
        proof {
            assert(path@ != seq!['/']) by {
                if path@ == seq!['/'] {
                    assert(path@.len() == 1);
                }
            }
        }
        false
    }
}

/// Character-for-character equality of two strings.
pub(crate) fn str_eq(a: &str, b: &str) -> (r: bool)
    ensures
        r == (a@ == b@),
{
    let na: usize = a.unicode_len();
    let nb: usize = b.unicode_len();
    if na != nb {
        proof {
            assert(a@ != b@) by {
                if a@ == b@ {
                    assert(a@.len() == b@.len());
                }
            }
        }
        return false;
    }
    let mut i: usize = 0;
    while i < na
        invariant
            0 <= i <= na,
            na == a@.len(),
            na == b@.len(),
            forall|j: int| 0 <= j < i ==> a@[j] == b@[j],
        decreases na - i,
    {
        if a.get_char(i) != b.get_char(i) {
            proof {
                assert(a@ != b@) by {
                    if a@ == b@ {
                        assert(a@[i as int] == b@[i as int]);
                    }
                }
            }
            return false;
        }
        i = i + 1;
    }
    proof {
        assert(a@ =~= b@);
    }
    true
}

} // verus!
