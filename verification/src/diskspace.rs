//! The space of a volume.
use vstd::prelude::*;
use vstd::string::*;

use crate::paths;
use crate::text;

verus! {

/// The bytes of a volume.
#[derive(Clone, Copy, PartialEq, Eq, Debug, Structural)]
pub struct DiskSpace {
    pub total: u64,
    /// What the user may still fill.
    pub free: u64,
}

/// The space of a volume, from what was found out about it: none if either
/// number could not be had, or if the volume has no bytes.
pub fn disk_space(total: Option<u64>, free: Option<u64>) -> (r: Option<DiskSpace>)
    ensures
        r == match (total, free) {
            (Some(t), Some(f)) => if t > 0 {
                Some(DiskSpace { total: t, free: f })
            } else {
                None
            },
            _ => None,
        },
{
    match (total, free) {
        (Some(t), Some(f)) => if t > 0 {
            Some(DiskSpace { total: t, free: f })
        } else {
            None
        },
        _ => None,
    }
}

/// Whether a path is the root of a volume.
pub open spec fn volume_root(path: Seq<char>) -> bool {
    paths::parts(path) == paths::parts("/"@)
}

/// Whether a path is the root of a volume.
pub fn is_volume_root(path: &str) -> (r: bool)
    ensures
        r == volume_root(path@),
{
    paths::same_path(path, "/")
}

/// The roots of the drives that are there: of the letters from A to Z those that
/// were found.
pub open spec fn drive_roots(found: Seq<bool>) -> Seq<Seq<char>>
    decreases found.len(),
{
    if found.len() == 0 {
        Seq::empty()
    } else {
        let before = drive_roots(found.drop_last());
        if found.last() {
            before.push(drive_root((found.len() - 1) as nat))
        } else {
            before
        }
    }
}

/// The root of the drive with the `i`th letter.
pub open spec fn drive_root(i: nat) -> Seq<char> {
    seq![(65 + i) as char, ':', '\\']
}

/// The roots of the drives that are there.
pub fn list_drives(found: &Vec<bool>) -> (v: Vec<String>)
    requires
        found@.len() <= 26,
    ensures
        text::texts(v@) == drive_roots(found@),
{
    let mut v: Vec<String> = Vec::new();
    let mut letter: u8 = 65;
    proof {
        assert(found@.take(0) =~= Seq::empty());
        assert(text::texts(v@) =~= drive_roots(found@.take(0)));
    }
    for i in 0..found.len()
        invariant
            found@.len() <= 26,
            letter == 65 + i,
            text::texts(v@) == drive_roots(found@.take(i as int)),
    {
        proof {
            assert(found@.take(i + 1).drop_last() =~= found@.take(i as int));
            assert(found@.take(i + 1).last() == found@[i as int]);
        }
        if found[i] {
            let mut root = String::new();
            root.push(letter as char);
            root.append(":\\");
            proof {
                reveal_strlit(":\\");
                assert(root@ =~= drive_root(i as nat));
            }
            let ghost before = v@;
            v.push(root);
            proof {
                assert(text::texts(v@) =~= text::texts(before).push(root@));
            }
        }
        letter = letter + 1;
    }
    proof {
        assert(found@.take(found@.len() as int) =~= found@);
    }
    v
}

/// The drives that are there have their letters in order, each with a colon and a
/// backslash.
pub proof fn law_drive_letters(found: Seq<bool>)
    ensures
        drive_root(0) == seq!['A', ':', '\\'],
        drive_root(2) == seq!['C', ':', '\\'],
        drive_root(25) == seq!['Z', ':', '\\'],
        forall|i: int|
            0 <= i < found.len() && found[i] ==> #[trigger] drive_roots(found).contains(
                drive_root(i as nat),
            ),
        drive_roots(found).len() <= found.len(),
    decreases found.len(),
{
    if found.len() > 0 {
        let most = found.drop_last();
        law_drive_letters(most);
        let before = drive_roots(most);
        let all = drive_roots(found);
        assert forall|i: int| 0 <= i < found.len() && found[i] implies #[trigger] all.contains(
            drive_root(i as nat),
        ) by {
            if i < most.len() {
                assert(most[i] == found[i]);
                assert(before.contains(drive_root(i as nat)));
                let k = choose|k: int| 0 <= k < before.len() && before[k] == drive_root(i as nat);
                assert(all[k] == before[k]);
            } else {
                assert(all[before.len() as int] == drive_root(i as nat));
            }
        }
    }
}

} // verus!
