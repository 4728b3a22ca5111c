use vstd::prelude::*;

verus! {

/// The drive letter of index `i`, counting from `A`.
pub open spec fn drive_letter(i: int) -> char {
    ((65 + i) as u8) as char
}

/// The letters, in order, of the drives whose flag in `present` is set.
pub open spec fn present_letters(present: Seq<bool>) -> Seq<char>
    decreases present.len(),
{
    if present.len() == 0 {
        Seq::empty()
    } else {
        let rest = present_letters(present.drop_last());
        if present.last() {
            rest.push(drive_letter(present.len() - 1))
        } else {
            rest
        }
    }
}

/// The drive letters `A` to `Z` whose root `root_exists` reports, in order.
pub fn get_available_drives<E>(root_exists: &E) -> (r: Vec<char>) where E: Fn(char) -> bool
    requires
        forall|c: char| #[trigger] root_exists.requires((c,)),
    ensures
        exists|present: Seq<bool>|
            present.len() == 26 && r@ == present_letters(present) && forall|i: int|
                0 <= i < 26 ==> #[trigger] root_exists.ensures((drive_letter(i),), present[i]),
{
    let mut drives: Vec<char> = Vec::new();
    let ghost mut present: Seq<bool> = Seq::empty();
    let mut l: u8 = 65;
    while l <= 90
        invariant
            forall|c: char| #[trigger] root_exists.requires((c,)),
            65 <= l <= 91,
            present.len() == l - 65,
            drives@ == present_letters(present),
            forall|i: int| 0 <= i < present.len() ==> #[trigger] root_exists.ensures((drive_letter(i),), present[i]),
        decreases 91 - l,
    {
        let c = l as char;
        let found = root_exists(c);
        proof {
            assert(drive_letter(present.len() as int) == c);
            let next = present.push(found);
            assert(next.drop_last() =~= present);
            assert forall|i: int| 0 <= i < next.len() implies #[trigger] root_exists.ensures((drive_letter(i),), next[i]) by {
                if i < present.len() {
                    assert(next[i] == present[i]);
                }
            }
            present = next;
        }
        if found {
            drives.push(c);
        }
        l = l + 1;
    }
    drives
}

} // verus!
