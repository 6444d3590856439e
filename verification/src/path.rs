//! Paths, as the bytes by which the system knows them.

use vstd::prelude::*;
use vstd::slice::slice_to_vec;

verus! {

/// The byte between the parts of a path.
pub const SLASH: u8 = 0x2f;

/// The path that is written as a text.
pub open spec fn of_text(s: Seq<char>) -> Seq<u8> {
    vstd::utf8::encode_utf8(s)
}

pub fn from_text(s: &str) -> (r: Vec<u8>)
    ensures
        r@ == of_text(s@),
{
    slice_to_vec(s.as_bytes())
}

/// The path of an entry of a directory. The two are separated by a slash, unless the directory
/// ends in one or is empty. A name that starts with a slash is a path of its own.
pub open spec fn joined(dir: Seq<u8>, name: Seq<u8>) -> Seq<u8> {
    if name.len() > 0 && name[0] == SLASH {
        name
    } else if dir.len() == 0 || dir.last() == SLASH {
        dir + name
    } else {
        dir.push(SLASH) + name
    }
}

pub fn join(dir: &[u8], name: &[u8]) -> (r: Vec<u8>)
    ensures
        r@ == joined(dir@, name@),
{
    let mut r: Vec<u8> = Vec::new();
    if name.len() == 0 || name[0] != SLASH {
        append(&mut r, dir);
        if dir.len() > 0 && dir[dir.len() - 1] != SLASH {
            r.push(SLASH);
        }
    }
    append(&mut r, name);
    r
}

fn append(r: &mut Vec<u8>, more: &[u8])
    ensures
        final(r)@ == old(r)@ + more@,
{
    let mut i: usize = 0;
    while i < more.len()
        invariant
            i <= more.len(),
            r@ == old(r)@ + more@.take(i as int),
        decreases more.len() - i,
    {
        r.push(more[i]);
        i = i + 1;
    }
    assert(more@.take(i as int) =~= more@);
}

/// The same with a name that is written as a text.
pub fn join_text(dir: &[u8], name: &str) -> (r: Vec<u8>)
    ensures
        r@ == joined(dir@, of_text(name@)),
{
    join(dir, name.as_bytes())
}

/// Whether two paths hold the same bytes.
pub fn same(a: &[u8], b: &[u8]) -> (r: bool)
    ensures
        r == (a@ == b@),
{
    if a.len() != b.len() {
        return false;
    }
    let mut i: usize = 0;
    while i < a.len()
        invariant
            i <= a.len(),
            a.len() == b.len(),
            forall|j: int| 0 <= j < i ==> a@[j] == b@[j],
        decreases a.len() - i,
    {
        if a[i] != b[i] {
            return false;
        }
        i = i + 1;
    }
    assert(a@ =~= b@);
    true
}

pub fn copied(path: &[u8]) -> (r: Vec<u8>)
    ensures
        r@ == path@,
{
    slice_to_vec(path)
}

/// The bytes of an optional path.
pub open spec fn maybe(path: Option<Vec<u8>>) -> Option<Seq<u8>> {
    match path {
        Some(p) => Some(p@),
        None => None,
    }
}

/// The same for a borrowed one.
pub open spec fn maybe_part(path: Option<&[u8]>) -> Option<Seq<u8>> {
    match path {
        Some(p) => Some(p@),
        None => None,
    }
}

pub fn borrowed<'a>(path: &'a Option<Vec<u8>>) -> (r: Option<&'a [u8]>)
    ensures
        maybe_part(r) == maybe(*path),
{
    match path {
        Some(p) => Some(p.as_slice()),
        None => None,
    }
}

/// The bytes of the paths of a list.
pub open spec fn all(paths: Seq<Vec<u8>>) -> Seq<Seq<u8>> {
    paths.map_values(|p: Vec<u8>| p@)
}

/// The path of an entry ends in the entry's name. Unless the name is a path of its own, it begins
/// with the directory, and between the two there stands one slash at most.
pub proof fn law_joined_parts(dir: Seq<u8>, name: Seq<u8>)
    ensures
        ({
            let p = joined(dir, name);
            let own = name.len() > 0 && name[0] == 47;
            &&& p.len() >= name.len()
            &&& p.subrange(p.len() - name.len(), p.len() as int) == name
            &&& own ==> p == name
            &&& !own ==> p.len() >= dir.len() && p.take(dir.len() as int) == dir
            &&& !own && dir.len() > 0 ==> p[dir.len() as int - 1] == 47 || (p.len() == dir.len() + 1
                + name.len() && p[dir.len() as int] == 47)
            &&& !own && (dir.len() == 0 || dir.last() == 47) ==> p.len() == dir.len() + name.len()
        }),
{
    let p = joined(dir, name);
    assert(p.subrange(p.len() - name.len(), p.len() as int) =~= name);
    if !(name.len() > 0 && name[0] == 47) {
        assert(p.take(dir.len() as int) =~= dir);
    }
}

} // verus!
