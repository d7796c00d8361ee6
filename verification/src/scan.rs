//! Which directory entries the host attempts to load: regular files whose
//! file name carries the platform's native dynamic-library extension.

use vstd::prelude::*;

verus! {

/// Index of the last `'.'` in `s`, or `-1` when `s` holds none.
pub open spec fn spec_last_dot(s: Seq<char>) -> int
    decreases s.len(),
{
    if s.len() == 0 {
        -1
    } else if s.last() == '.' {
        s.len() - 1
    } else {
        spec_last_dot(s.drop_last())
    }
}

/// The extension of a file name: the characters after the last `'.'`.
/// A name without a `'.'` has no extension, and neither does a name whose
/// only role for its last `'.'` is to start a hidden file (index 0).
pub open spec fn spec_extension(s: Seq<char>) -> Option<Seq<char>> {
    let i = spec_last_dot(s);
    if i <= 0 {
        None
    } else {
        Some(s.subrange(i + 1, s.len() as int))
    }
}

/// The extension, or the empty sequence for a name that has none.
pub open spec fn spec_ext_or_empty(s: Seq<char>) -> Seq<char> {
    match spec_extension(s) {
        Some(e) => e,
        None => Seq::empty(),
    }
}

/// Index of the last `'.'` in `name`, scanning from the end.
fn last_dot_index(name: &str) -> (r: Option<usize>)
    ensures
        match r {
            Some(i) => i < name@.len() && spec_last_dot(name@) == i,
            None => spec_last_dot(name@) == -1,
        },
{
    let n: usize = name.unicode_len();
    let mut j: usize = n;
    proof {
        assert(name@.take(n as int) =~= name@);
    }
    while j > 0
        invariant
            j <= n,
            n == name@.len(),
            spec_last_dot(name@) == spec_last_dot(name@.take(j as int)),
        decreases j,
    {
        if name.get_char(j - 1) == '.' {
            proof {
                assert(name@.take(j as int).last() == name@[j - 1]);
            }
            return Some(j - 1);
        }
        proof {
            assert(name@.take(j as int).last() == name@[j - 1]);
            assert(name@.take(j as int).drop_last() =~= name@.take(j - 1));
        }
        j = j - 1;
    }
    proof {
        assert(name@.take(0) =~= Seq::<char>::empty());
    }
    None
}

/// Whether `name` carries the extension `ext`: a scan of the plugin
/// directory attempts exactly the regular files for which this holds, with
/// `ext` set to the platform's dynamic-library extension.
pub fn matches_extension(name: &str, ext: &str) -> (r: bool)
    ensures
        r == (spec_ext_or_empty(name@) == ext@),
{
    match last_dot_index(name) {
        Some(i) => {
            if i == 0 {
                proof {
                    assert(ext@.len() == 0 ==> ext@ =~= Seq::<char>::empty());
                }
                ext.unicode_len() == 0
            } else {
                let n: usize = name.unicode_len();
                let e = name.substring_char(i + 1, n);
                let a: String = e.to_owned();
                let b: String = ext.to_owned();
                a == b
            }
        },
        None => {
            proof {
                assert(ext@.len() == 0 ==> ext@ =~= Seq::<char>::empty());
            }
            ext.unicode_len() == 0
        },
    }
}

} // verus!
