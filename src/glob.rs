use vstd::prelude::*;

verus! {

/// `*`: any run of bytes.
pub const STAR: u8 = 42;

/// `?`: any one byte.
pub const ANY_ONE: u8 = 63;

/// A name matches a pattern in which `*` stands for any run of bytes, `?` for any one byte,
/// and every other byte for itself.
pub open spec fn glob_match(p: Seq<u8>, n: Seq<u8>) -> bool
    decreases p.len() + n.len(),
{
    if p.len() == 0 {
        n.len() == 0
    } else if p[0] == STAR {
        glob_match(p.drop_first(), n) || (n.len() > 0 && glob_match(p, n.drop_first()))
    } else if n.len() == 0 {
        false
    } else if p[0] == ANY_ONE || p[0] == n[0] {
        glob_match(p.drop_first(), n.drop_first())
    } else {
        false
    }
}

/// A name is ignored when some pattern matches it.
pub open spec fn ignored_by(patterns: Seq<Seq<u8>>, n: Seq<u8>) -> bool {
    exists|k: int| 0 <= k < patterns.len() && glob_match(#[trigger] patterns[k], n)
}

fn glob_from(p: &[u8], n: &[u8], i: usize, j: usize) -> (r: bool)
    requires
        i <= p.len(),
        j <= n.len(),
    ensures
        r == glob_match(p@.skip(i as int), n@.skip(j as int)),
    decreases p.len() - i + n.len() - j,
{
    let ghost ps = p@.skip(i as int);
    let ghost ns = n@.skip(j as int);
    if i == p.len() {
        j == n.len()
    } else {
        proof {
            assert(ps.drop_first() =~= p@.skip(i + 1));
            assert(ps[0] == p@[i as int]);
            if j < n.len() {
                assert(ns.drop_first() =~= n@.skip(j + 1));
                assert(ns[0] == n@[j as int]);
            }
        }
        if p[i] == STAR {
            if glob_from(p, n, i + 1, j) {
                true
            } else {
                j < n.len() && glob_from(p, n, i, j + 1)
            }
        } else if j == n.len() {
            false
        } else if p[i] == ANY_ONE || p[i] == n[j] {
            glob_from(p, n, i + 1, j + 1)
        } else {
            false
        }
    }
}

/// Decides whether `name` matches the glob `pattern`.
pub fn matches_glob(pattern: &[u8], name: &[u8]) -> (r: bool)
    ensures
        r == glob_match(pattern@, name@),
{
    proof {
        assert(pattern@.skip(0) =~= pattern@);
        assert(name@.skip(0) =~= name@);
    }
    glob_from(pattern, name, 0, 0)
}

/// Decides whether any of `patterns` matches `name`.
pub fn is_ignored(patterns: &Vec<Vec<u8>>, name: &[u8]) -> (r: bool)
    ensures
        r == ignored_by(patterns@.map_values(|v: Vec<u8>| v@), name@),
{
    let ghost ps = patterns@.map_values(|v: Vec<u8>| v@);
    let mut k: usize = 0;
    while k < patterns.len()
        invariant
            k <= patterns.len(),
            ps == patterns@.map_values(|v: Vec<u8>| v@),
            forall|m: int| 0 <= m < k ==> !glob_match(#[trigger] ps[m], name@),
        decreases patterns.len() - k,
    {
        if matches_glob(patterns[k].as_slice(), name) {
            assert(glob_match(ps[k as int], name@));
            return true;
        }
        k = k + 1;
    }
    false
}

} // verus!
