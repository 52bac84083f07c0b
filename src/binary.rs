//! Choice of the executable to profile among those that a build produced.
use vstd::prelude::*;

verus! {

/// Why no executable could be chosen.
#[derive(Clone, Copy, Debug, PartialEq, Eq)]
pub enum BinaryError {
    /// The build produced no executable.
    NoBinary,
    /// No executable's path ends with the requested name.
    NoMatch,
    /// Several executables were built and none was named.
    Ambiguous,
}

/// Whether the path `path` ends with the path `child`, compared component by
/// component, as `std::path::Path::ends_with` decides; false where either is
/// not UTF-8.
pub uninterp spec fn path_ends_with(path: Seq<u8>, child: Seq<u8>) -> bool;

/// Relies on `std::path::Path::ends_with`, which matches whole components only
/// (`/t/foo` ends with `foo` but not with `oo`); its result depends on the two
/// paths alone.
#[verifier::external_body]
fn ends_with_path(path: &[u8], child: &[u8]) -> (r: bool)
    ensures
        r == path_ends_with(path@, child@),
{
    match (std::str::from_utf8(path), std::str::from_utf8(child)) {
        (Ok(p), Ok(c)) => std::path::Path::new(p).ends_with(c),
        _ => false,
    }
}

/// The executable to pick among `count` of them, where `matches` says, when a
/// name was given, which ones end with it: the first match; or, with no name,
/// the only executable.
pub fn select_binary(count: usize, matches: &Option<Vec<bool>>) -> (r: Result<usize, BinaryError>)
    requires
        matches matches Some(m) ==> m@.len() == count,
    ensures
        count == 0 ==> r == Err::<usize, BinaryError>(BinaryError::NoBinary),
        count > 0 && matches is None ==> r == if count == 1 {
            Ok::<usize, BinaryError>(0)
        } else {
            Err(BinaryError::Ambiguous)
        },
        count > 0 && matches is Some ==> match r {
            Ok(i) => i < count && matches->Some_0@[i as int] && forall|j: int|
                0 <= j < i ==> !matches->Some_0@[j],
            Err(e) => e == BinaryError::NoMatch && forall|j: int|
                0 <= j < count ==> !matches->Some_0@[j],
        },
{
    if count == 0 {
        return Err(BinaryError::NoBinary);
    }
    match matches {
        Some(m) => {
            let mut i: usize = 0;
            while i < m.len()
                invariant
                    matches is Some,
                    matches->Some_0@ == m@,
                    m@.len() == count,
                    0 <= i <= m@.len(),
                    forall|j: int| 0 <= j < i ==> !m@[j],
                decreases m@.len() - i,
            {
                if m[i] {
                    return Ok(i);
                }
                i = i + 1;
            }
            Err(BinaryError::NoMatch)
        },
        None => {
            if count == 1 {
                Ok(0)
            } else {
                Err(BinaryError::Ambiguous)
            }
        },
    }
}

/// The index of the executable to profile, among the paths of those built:
/// the first whose path ends with the path `bin` where a name is given, else
/// the only one.
pub fn find_binary(executables: &Vec<Vec<u8>>, bin: &Option<Vec<u8>>) -> (r: Result<usize, BinaryError>)
    ensures
        executables@.len() == 0 ==> r == Err::<usize, BinaryError>(BinaryError::NoBinary),
        executables@.len() > 0 && bin is None ==> r == if executables@.len() == 1 {
            Ok::<usize, BinaryError>(0)
        } else {
            Err(BinaryError::Ambiguous)
        },
        executables@.len() > 0 && bin is Some ==> match r {
            Ok(i) => i < executables@.len() && path_ends_with(executables@[i as int]@, bin->Some_0@)
                && forall|j: int|
                0 <= j < i ==> !path_ends_with(#[trigger] executables@[j]@, bin->Some_0@),
            Err(e) => e == BinaryError::NoMatch && forall|j: int|
                0 <= j < executables@.len() ==> !path_ends_with(
                    #[trigger] executables@[j]@,
                    bin->Some_0@,
                ),
        },
{
    let matches: Option<Vec<bool>> = match bin {
        Some(name) => {
            let mut m: Vec<bool> = Vec::new();
            let mut i: usize = 0;
            while i < executables.len()
                invariant
                    bin is Some,
                    bin->Some_0@ == name@,
                    0 <= i <= executables@.len(),
                    m@.len() == i,
                    forall|j: int|
                        0 <= j < i ==> m@[j] == path_ends_with(executables@[j]@, name@),
                decreases executables@.len() - i,
            {
                let e = ends_with_path(executables[i].as_slice(), name.as_slice());
                m.push(e);
                i = i + 1;
            }
            Some(m)
        },
        None => None,
    };
    assert(bin is Some ==> matches is Some && matches->Some_0@.len() == executables@.len() && forall|
        j: int,
    |
        0 <= j < executables@.len() ==> matches->Some_0@[j] == path_ends_with(
            #[trigger] executables@[j]@,
            bin->Some_0@,
        ));
    select_binary(executables.len(), &matches)
}

} // verus!
