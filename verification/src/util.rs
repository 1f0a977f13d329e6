//! Path-string helpers.

use vstd::prelude::*;

verus! {

use vstd::string::StrSliceExecFns;

/// Whether a character sequence holds a slash.
pub open spec fn has_slash(s: Seq<char>) -> bool {
    exists|i: int| 0 <= i < s.len() && s[i] == '/'
}

/// The index of the last slash; -1 when there is none.
pub open spec fn last_slash(s: Seq<char>) -> int
    decreases s.len(),
{
    if s.len() == 0 {
        -1
    } else if s[s.len() - 1] == '/' {
        s.len() - 1
    } else {
        last_slash(s.drop_last())
    }
}

pub proof fn lemma_last_slash(s: Seq<char>, i: int)
    requires
        0 <= i < s.len(),
        s[i] == '/',
        forall|k: int| i < k < s.len() ==> s[k] != '/',
    ensures
        last_slash(s) == i,
    decreases s.len(),
{
    if s.len() - 1 == i {
    } else {
        assert(s[s.len() - 1] != '/');
        assert(s.drop_last()[i] == s[i]);
        lemma_last_slash(s.drop_last(), i);
    }
}

pub proof fn lemma_no_slash(s: Seq<char>)
    requires
        forall|k: int| 0 <= k < s.len() ==> s[k] != '/',
    ensures
        !has_slash(s),
        last_slash(s) == -1,
    decreases s.len(),
{
    if s.len() > 0 {
        lemma_no_slash(s.drop_last());
    }
    if has_slash(s) {
        let i = choose|i: int| 0 <= i < s.len() && s[i] == '/';
        assert(s[i] != '/');
    }
}

/// A sequence with a slash has its last slash inside it, at a slash.
pub proof fn lemma_last_slash_bounds(s: Seq<char>)
    requires
        has_slash(s),
    ensures
        0 <= last_slash(s) < s.len(),
        s[last_slash(s)] == '/',
    decreases s.len(),
{
    if s.len() > 0 && s[s.len() - 1] != '/' {
        let i = choose|i: int| 0 <= i < s.len() && s[i] == '/';
        assert(s.drop_last()[i] == s[i]);
        lemma_has_slash_at(s.drop_last(), i);
        lemma_last_slash_bounds(s.drop_last());
        assert(s[last_slash(s.drop_last())] == s.drop_last()[last_slash(s.drop_last())]);
    }
}

pub proof fn lemma_has_slash_at(s: Seq<char>, i: int)
    requires
        0 <= i < s.len(),
        s[i] == '/',
    ensures
        has_slash(s),
{
}

/// What remains of a path after cutting at its last slash, repeatedly,
/// until the remainder no longer ends in a slash: the path without its
/// last component and without the run of slashes before it.  A path with
/// no slash at all stays as it is.
pub open spec fn trim_spec(s: Seq<char>) -> Seq<char>
    decreases s.len(),
    via trim_spec_dec
{
    if !has_slash(s) {
        s
    } else {
        let p = s.take(last_slash(s));
        if p.len() == 0 || p[p.len() - 1] != '/' {
            p
        } else {
            trim_spec(p)
        }
    }
}

#[via_fn]
proof fn trim_spec_dec(s: Seq<char>) {
    if has_slash(s) {
        lemma_last_slash_bounds(s);
    }
}

/// Drops the last component of an ASCII path, and the slashes before it.
pub fn trim_last_item_from_path_str(path: &str) -> (r: &str)
    requires
        vstd::string::is_ascii(path),
    ensures
        r@ == trim_spec(path@),
{
    let total = path.unicode_len();
    let mut end: usize = total;
    proof {
        assert(path@.take(total as int) =~= path@);
    }
    loop
        invariant
            vstd::string::is_ascii(path),
            end <= total,
            total == path@.len(),
            trim_spec(path@) == trim_spec(path@.take(end as int)),
        decreases end,
    {
        let ghost s = path@.take(end as int);
        // Scan for the last slash in the current prefix.
        let mut j: usize = end;
        let mut found = false;
        while j > 0 && !found
            invariant
                vstd::string::is_ascii(path),
                j <= end,
                end <= total,
                total == path@.len(),
                !found ==> forall|k: int| j <= k < end ==> path@[k] != '/',
                found ==> j >= 1 && path@[j as int - 1] == '/' && (forall|k: int|
                    j <= k < end ==> path@[k] != '/'),
            decreases j + (if found {
                0int
            } else {
                1int
            }),
        {
            let c = path.get_ascii(j - 1);
            if c == 47 {
                found = true;
            } else {
                j = j - 1;
            }
        }
        if !found {
            proof {
                assert forall|k: int| 0 <= k < s.len() implies s[k] != '/' by {
                    assert(s[k] == path@[k]);
                }
                lemma_no_slash(s);
                assert(trim_spec(s) == s);
            }
            let r = path.substring_ascii(0, end);
            proof {
                assert(r@ == trim_spec(path@));
            }
            return r;
        }
        let idx = j - 1;
        proof {
            assert(s[idx as int] == path@[idx as int]);
            assert(s[idx as int] == '/');
            lemma_has_slash_at(s, idx as int);
            assert forall|k: int| idx < k < s.len() implies s[k] != '/' by {
                assert(s[k] == path@[k]);
            }
            lemma_last_slash(s, idx as int);
            assert(s.take(last_slash(s)) =~= path@.take(idx as int));
        }
        if idx == 0 {
            proof {
                assert(path@.take(0) =~= Seq::<char>::empty());
                assert(trim_spec(s) =~= path@.take(0));
            }
            let r = path.substring_ascii(0, 0);
            proof {
                assert(r@ =~= trim_spec(path@));
            }
            return r;
        }
        let before = path.get_ascii(idx - 1);
        if before != 47 {
            proof {
                let p = path@.take(idx as int);
                assert(p[p.len() - 1] == path@[idx as int - 1]);
                assert(p[p.len() - 1] != '/');
                assert(trim_spec(s) == p);
            }
            let r = path.substring_ascii(0, idx);
            proof {
                assert(r@ =~= trim_spec(path@));
            }
            return r;
        }
        proof {
            let p = path@.take(idx as int);
            assert(p[p.len() - 1] == path@[idx as int - 1]);
            assert(p[p.len() - 1] == '/');
            assert(trim_spec(s) == trim_spec(p));
        }
        end = idx;
    }
}

} // verus!
