//! Path handling for the remote-storage sync collaborator: a local path is
//! mapped into the store by stripping the workdir prefix.  Paths are handled
//! as their components.

use vstd::prelude::*;

verus! {

/// Why a prefix could not be stripped from a path.
#[derive(Clone, Copy, Debug, PartialEq, Eq, Structural)]
pub enum StripPrefixError {
    /// Prefix and path are equal: nothing would remain.
    EqualPaths,
    /// The path does not start with the prefix.
    NotAPrefix,
}

/// The mathematical value of a path: its components' character sequences.
pub open spec fn path_view(p: Seq<String>) -> Seq<Seq<char>> {
    p.map_values(|s: String| s@)
}

/// Strips `prefix` from the front of `path`, returning what remains.
/// Fails with `EqualPaths` when the two are equal (nothing would remain)
/// and with `NotAPrefix` when `path` does not start with `prefix`.
pub fn strip_path_prefix(prefix: &Vec<String>, path: &Vec<String>) -> (r: Result<
    Vec<String>,
    StripPrefixError,
>)
    ensures
        ({
            let pv = path_view(prefix@);
            let qv = path_view(path@);
            if pv == qv {
                r == Err::<Vec<String>, StripPrefixError>(StripPrefixError::EqualPaths)
            } else if qv.len() > pv.len() && qv.subrange(0, pv.len() as int) == pv {
                r matches Ok(rest) && path_view(rest@) == qv.subrange(pv.len() as int, qv.len() as int)
            } else {
                r == Err::<Vec<String>, StripPrefixError>(StripPrefixError::NotAPrefix)
            }
        }),
{
    let np = prefix.len();
    let nq = path.len();
    let ghost pv = path_view(prefix@);
    let ghost qv = path_view(path@);
    if nq < np {
        proof {
            assert(pv != qv) by {
                assert(pv.len() != qv.len());
            }
        }
        return Err(StripPrefixError::NotAPrefix);
    }
    let mut i: usize = 0;
    while i < np
        invariant
            np == pv.len(),
            nq == qv.len(),
            np <= nq,
            i <= np,
            pv == path_view(prefix@),
            qv == path_view(path@),
            forall|j: int| 0 <= j < i ==> (#[trigger] pv[j]) == qv[j],
        decreases np - i,
    {
        if prefix[i] != path[i] {
            proof {
                assert(pv[i as int] != qv[i as int]);
                if pv == qv {
                    assert(false);
                }
                if qv.len() > pv.len() && qv.subrange(0, pv.len() as int) == pv {
                    assert(qv.subrange(0, pv.len() as int)[i as int] == qv[i as int]);
                    assert(false);
                }
            }
            return Err(StripPrefixError::NotAPrefix);
        }
        i += 1;
    }
    if np == nq {
        proof {
            assert(pv =~= qv);
        }
        return Err(StripPrefixError::EqualPaths);
    }
    let mut rest: Vec<String> = Vec::new();
    let mut k: usize = np;
    while k < nq
        invariant
            np == pv.len(),
            nq == qv.len(),
            np <= k <= nq,
            qv == path_view(path@),
            path_view(rest@) == qv.subrange(np as int, k as int),
        decreases nq - k,
    {
        let ghost prev = path_view(rest@);
        rest.push(path[k].clone());
        proof {
            assert(path_view(rest@) =~= prev.push(qv[k as int]));
            assert(path_view(rest@) =~= qv.subrange(np as int, k + 1));
        }
        k += 1;
    }
    proof {
        assert(pv != qv) by {
            assert(pv.len() != qv.len());
        }
        assert(qv.subrange(0, pv.len() as int) =~= pv);
    }
    Ok(rest)
}

} // verus!
