//! Byte strings: names and paths as the kernel knows them.

use vstd::prelude::*;
use vstd::utf8::valid_utf8;

verus! {

/// The text that `String::from_utf8_lossy` makes of bytes that are not UTF-8.
pub uninterp spec fn replaced_text(bytes: Seq<u8>) -> Seq<u8>;

/// How the bytes of a name read as text: themselves where they are UTF-8, and otherwise with
/// every malformed part replaced.
pub open spec fn lossy_text(bytes: Seq<u8>) -> Seq<u8> {
    if valid_utf8(bytes) {
        bytes
    } else {
        replaced_text(bytes)
    }
}

/// `Path::join`: an absolute `name` stands for itself, any other is put behind `base` and a
/// separator.
pub open spec fn joined(base: Seq<u8>, name: Seq<u8>) -> Seq<u8> {
    if name.len() > 0 && name[0] == 47 {
        name
    } else if base.len() == 0 || base.last() == 47 {
        base + name
    } else {
        base.push(47) + name
    }
}

/// Whether `part` stands somewhere in `text`.
pub open spec fn occurs_in(part: Seq<u8>, text: Seq<u8>) -> bool {
    exists|i: int|
        0 <= i <= text.len() - part.len() && #[trigger] text.subrange(i, i + part.len()) == part
}

/// `String::from_utf8_lossy`, as bytes. Claimed: valid UTF-8 comes back unchanged, and the text
/// made of anything else depends on the bytes alone and holds the replacement character, whose
/// encoding is `EF BF BD`.
#[verifier::external_body]
pub(crate) fn lossy(bytes: &[u8]) -> (text: Vec<u8>)
    ensures
        valid_utf8(bytes@) ==> text@ == bytes@,
        !valid_utf8(bytes@) ==> text@ == replaced_text(bytes@),
        !valid_utf8(bytes@) ==> occurs_in(seq![0xefu8, 0xbfu8, 0xbdu8], text@),
{
    String::from_utf8_lossy(bytes).into_owned().into_bytes()
}

/// `std::str::from_utf8`: it succeeds on valid UTF-8 and on nothing else.
#[verifier::external_body]
pub(crate) fn is_utf8(bytes: &[u8]) -> (valid: bool)
    ensures
        valid == valid_utf8(bytes@),
{
    std::str::from_utf8(bytes).is_ok()
}

/// A byte string of its own with the same bytes.
pub fn copied(bytes: &[u8]) -> (copy: Vec<u8>)
    ensures
        copy@ == bytes@,
{
    let mut copy: Vec<u8> = Vec::new();
    append(&mut copy, bytes);
    copy
}

/// Puts `more` behind `text`.
pub fn append(text: &mut Vec<u8>, more: &[u8])
    ensures
        final(text)@ == old(text)@ + more@,
{
    let ghost start = text@;
    let mut i: usize = 0;
    while i < more.len()
        invariant
            i <= more.len(),
            text@ == start + more@.take(i as int),
        decreases more.len() - i,
    {
        text.push(more[i]);
        i += 1;
        assert(more@.take(i as int) == more@.take(i - 1).push(more@[i - 1]));
    }
    assert(more@.take(more@.len() as int) == more@);
}

/// Whether two byte strings are equal.
pub fn same(a: &[u8], b: &[u8]) -> (equal: bool)
    ensures
        equal == (a@ == b@),
{
    if a.len() != b.len() {
        return false;
    }
    let mut i: usize = 0;
    while i < a.len()
        invariant
            a.len() == b.len(),
            i <= a.len(),
            forall|j: int| 0 <= j < i ==> a@[j] == b@[j],
        decreases a.len() - i,
    {
        if a[i] != b[i] {
            return false;
        }
        i += 1;
    }
    assert(a@ =~= b@);
    true
}

/// Joins a name to a path as `Path::join` does.
pub fn join(base: &[u8], name: &[u8]) -> (path: Vec<u8>)
    ensures
        path@ == joined(base@, name@),
{
    if name.len() > 0 && name[0] == 47 {
        return copied(name);
    }
    let mut path = copied(base);
    if base.len() > 0 && base[base.len() - 1] != 47 {
        path.push(47);
    }
    append(&mut path, name);
    path
}

/// Whether `part` stands in `text` from position `at` on.
fn stands_at(part: &[u8], text: &[u8], at: usize) -> (found: bool)
    requires
        at + part.len() <= text.len(),
    ensures
        found == (text@.subrange(at as int, at + part.len()) == part@),
{
    let mut i: usize = 0;
    while i < part.len()
        invariant
            at + part.len() <= text.len(),
            i <= part.len(),
            forall|j: int| 0 <= j < i ==> text@[at + j] == part@[j],
        decreases part.len() - i,
    {
        if text[at + i] != part[i] {
            assert(text@.subrange(at as int, at + part.len())[i as int] != part@[i as int]);
            return false;
        }
        i += 1;
    }
    assert(text@.subrange(at as int, at + part.len()) =~= part@);
    true
}

/// Whether `part` stands somewhere in `text`.
pub fn contains(text: &[u8], part: &[u8]) -> (found: bool)
    ensures
        found == occurs_in(part@, text@),
{
    if part.len() > text.len() {
        return false;
    }
    let last: usize = text.len() - part.len();
    let mut i: usize = 0;
    while i <= last
        invariant
            last == text.len() - part.len(),
            i <= last + 1,
            forall|j: int|
                0 <= j < i ==> #[trigger] text@.subrange(j, j + part.len()) != part@,
        decreases last + 1 - i,
    {
        if stands_at(part, text, i) {
            return true;
        }
        if i == last {
            return false;
        }
        i += 1;
    }
    false
}

/// Whether a byte occurs in a byte string.
pub fn has_byte(text: &[u8], byte: u8) -> (found: bool)
    ensures
        found == text@.contains(byte),
{
    let mut i: usize = 0;
    while i < text.len()
        invariant
            i <= text.len(),
            forall|j: int| 0 <= j < i ==> text@[j] != byte,
        decreases text.len() - i,
    {
        if text[i] == byte {
            return true;
        }
        i += 1;
    }
    false
}

} // verus!
