use vstd::prelude::*;

verus! {

/// Why a vault path given on the command line was refused.
#[derive(Debug, PartialEq, Eq)]
pub enum PathError {
    /// Nothing exists at the path.
    NotFound,
    /// Whether something exists could not be found out; the message says why.
    Probe(String),
}

/// Accepts a vault path once the caller has probed whether it exists:
/// `probe` is `Ok(exists)`, or the probe's error message.
pub fn parse_path(arg: &str, probe: Result<bool, String>) -> (r: Result<String, PathError>)
    ensures
        match probe {
            Ok(true) => r matches Ok(p) && p@ == arg@,
            Ok(false) => r matches Err(PathError::NotFound),
            Err(e) => r matches Err(PathError::Probe(m)) && m == e,
        },
{
    match probe {
        Ok(true) => Ok(arg.to_owned()),
        Ok(false) => Err(PathError::NotFound),
        Err(e) => Err(PathError::Probe(e)),
    }
}

/// The exit status of a batch, from whether each document failed: none for an
/// empty batch, else the worst of 0 (written) and 1 (failed).
pub fn batch_status(failed: &Vec<bool>) -> (r: Option<i32>)
    ensures
        failed@.len() == 0 ==> r is None,
        failed@.len() > 0 ==> r == Some(if failed@.contains(true) { 1i32 } else { 0i32 }),
{
    if failed.len() == 0 {
        return None;
    }
    let mut worst: i32 = 0;
    let mut i: usize = 0;
    while i < failed.len()
        invariant
            i <= failed.len(),
            worst == (if failed@.subrange(0, i as int).contains(true) { 1i32 } else { 0i32 }),
        decreases failed.len() - i,
    {
        proof {
            assert(failed@.subrange(0, i + 1) =~= failed@.subrange(0, i as int).push(failed@[i as int]));
            if failed@.subrange(0, i as int).contains(true) {
                let k = choose|k: int| 0 <= k < i && failed@.subrange(0, i as int)[k] == true;
                assert(failed@.subrange(0, i + 1)[k] == true);
            }
            if failed@[i as int] {
                assert(failed@.subrange(0, i + 1)[i as int] == true);
            }
        }
        if failed[i] {
            worst = 1;
        }
        i = i + 1;
    }
    assert(failed@.subrange(0, i as int) =~= failed@);
    Some(worst)
}

} // verus!
