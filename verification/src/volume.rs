//! Which volumes of a machine can be indexed, and how they are named to the system.

use vstd::prelude::*;

use crate::text::{same_letters, upper_char};
#[allow(unused_imports)]
use crate::text::{lowered, upper};
use crate::utf16::decode_lossy;
#[allow(unused_imports)]
use crate::utf16::utf16_lossy;

verus! {

/// Drive letters that there are.
pub const LETTERS: usize = 26;

/// Type of a drive with a removable medium.
pub const DRIVE_REMOVABLE: u32 = 2;

/// Type of a fixed drive.
pub const DRIVE_FIXED: u32 = 3;

/// What the system reports of one drive.
pub struct VolumeInfo {
    pub drive_type: u32,
    /// The name of the file system in a buffer that ends with, or is cut at, a zero
    /// unit. `None` if the volume could not be asked.
    pub fs_name: Option<Vec<u16>>,
}

/// The units before the first zero.
pub open spec fn before_zero(units: Seq<u16>) -> Seq<u16>
    decreases units.len(),
{
    if units.len() == 0 || units[0] == 0 {
        Seq::empty()
    } else {
        seq![units[0]] + before_zero(units.skip(1))
    }
}

/// A fixed or removable volume formatted NTFS.
pub open spec fn indexable(info: VolumeInfo) -> bool {
    &&& info.drive_type == DRIVE_FIXED || info.drive_type == DRIVE_REMOVABLE
    &&& info.fs_name matches Some(units) && lowered(utf16_lossy(before_zero(units@)))
        == lowered("NTFS"@)
}

/// The `i`-th drive letter.
pub open spec fn letter(i: int) -> char {
    ('A' as u32 + i) as char
}

/// The bit of the `i`-th drive is set in `mask`.
pub open spec fn in_mask(mask: u32, i: u32) -> bool {
    mask & (1u32 << i) != 0
}

/// The letters among the first `n` whose drive is there and can be indexed, in
/// order.
pub open spec fn indexable_letters(mask: u32, infos: Seq<VolumeInfo>, n: int) -> Seq<char>
    decreases n,
{
    if n <= 0 {
        Seq::empty()
    } else {
        let before = indexable_letters(mask, infos, n - 1);
        if in_mask(mask, (n - 1) as u32) && indexable(infos[n - 1]) {
            before.push(letter(n - 1))
        } else {
            before
        }
    }
}

/// The name under which a drive is opened as a raw volume, e.g. `\\.\C:`.
pub fn volume_device(drive: char) -> (name: String)
    ensures
        name@ == seq!['\\', '\\', '.', '\\', upper(drive), ':'],
{
    let mut name = String::new();
    name.push('\\');
    name.push('\\');
    name.push('.');
    name.push('\\');
    name.push(upper_char(drive));
    name.push(':');
    assert(name@ =~= seq!['\\', '\\', '.', '\\', upper(drive), ':']);
    name
}

/// What is said of a volume that cannot be opened.
pub fn open_failure(drive: char) -> (message: String)
    ensures
        message@ == "failed to open volume \\\\.\\"@ + seq![drive]
            + ": (needs admin privileges, must be an NTFS volume)"@,
{
    let mut message = "failed to open volume \\\\.\\".to_owned();
    let ghost before = message@;
    message.push(drive);
    assert(message@ =~= before + seq![drive]);
    message.append(": (needs admin privileges, must be an NTFS volume)");
    message
}

/// The name of a drive's root directory, e.g. `C:\`.
pub fn volume_root(drive: char) -> (name: String)
    ensures
        name@ == seq![drive, ':', '\\'],
{
    let mut name = String::new();
    name.push(drive);
    name.push(':');
    name.push('\\');
    assert(name@ =~= seq![drive, ':', '\\']);
    name
}

/// The units before the first zero.
fn cut_at_zero(units: &Vec<u16>) -> (cut: Vec<u16>)
    ensures
        cut@ == before_zero(units@),
{
    let mut cut: Vec<u16> = Vec::new();
    let mut i: usize = 0;
    assert(units@.skip(0) == units@);
    while i < units.len() && units[i] != 0
        invariant
            i <= units@.len(),
            cut@ + before_zero(units@.skip(i as int)) == before_zero(units@),
        decreases units@.len() - i,
    {
        let ghost rest = units@.skip(i as int);
        let ghost before = cut@;
        cut.push(units[i]);
        assert(rest.skip(1) == units@.skip(i + 1));
        assert(cut@ + before_zero(rest.skip(1)) =~= before + before_zero(rest));
        i += 1;
    }
    assert(before_zero(units@.skip(i as int)) =~= Seq::empty());
    assert(cut@ + before_zero(units@.skip(i as int)) =~= cut@);
    cut
}

/// True if what the system reports of a drive is that of a fixed/removable volume
/// formatted NTFS.
pub fn is_ntfs(info: &VolumeInfo) -> (r: bool)
    ensures
        r == indexable(*info),
{
    if info.drive_type != DRIVE_FIXED && info.drive_type != DRIVE_REMOVABLE {
        return false;
    }
    match &info.fs_name {
        Some(units) => {
            let name = decode_lossy(&cut_at_zero(units));
            same_letters(name.as_str(), "NTFS")
        },
        None => false,
    }
}

/// Whether the bit of the `i`-th drive is set in `mask`.
pub fn drive_present(mask: u32, i: u32) -> (r: bool)
    requires
        i < LETTERS,
    ensures
        r == in_mask(mask, i),
{
    mask & (1u32 << i) != 0
}

/// Enumerate all NTFS volumes on the machine (drive letters), so an empty-root
/// query can fan out across the whole machine instead of a single drive. Only
/// fixed/removable drives whose filesystem reports `NTFS` are returned; network,
/// CD-ROM, and non-NTFS volumes are skipped (the MFT/USN approach can't index
/// them). Results are sorted for deterministic ordering.
///
/// `mask` has the bits of the drives that there are, and `infos` what the system
/// reports of each letter's.
pub fn ntfs_drives(mask: u32, infos: &Vec<VolumeInfo>) -> (drives: Vec<char>)
    requires
        infos@.len() == LETTERS,
    ensures
        drives@ == indexable_letters(mask, infos@, LETTERS as int),
{
    let mut drives: Vec<char> = Vec::new();
    let mut i: u32 = 0;
    while i < 26
        invariant
            i <= 26,
            infos@.len() == LETTERS,
            drives@ == indexable_letters(mask, infos@, i as int),
        decreases 26 - i,
    {
        if drive_present(mask, i) && is_ntfs(&infos[i as usize]) {
            drives.push((65 + i as u8) as char);
        }
        i += 1;
    }
    drives
}

/// The drives come in ascending order, none of them twice.
pub proof fn law_drives_ascend(mask: u32, infos: Seq<VolumeInfo>, n: int)
    requires
        0 <= n <= LETTERS,
    ensures
        forall|i: int, j: int|
            0 <= i < j < indexable_letters(mask, infos, n).len() ==> #[trigger] indexable_letters(
                mask,
                infos,
                n,
            )[i] < #[trigger] indexable_letters(mask, infos, n)[j],
        forall|i: int|
            0 <= i < indexable_letters(mask, infos, n).len() ==> 'A' <= #[trigger] indexable_letters(
                mask,
                infos,
                n,
            )[i] < letter(n),
    decreases n,
{
    if n > 0 {
        law_drives_ascend(mask, infos, n - 1);
        let before = indexable_letters(mask, infos, n - 1);
        let all = indexable_letters(mask, infos, n);
        assert(all == before || all == before.push(letter(n - 1)));
        assert forall|i: int| 0 <= i < all.len() implies 'A' <= #[trigger] all[i] < letter(n) by {
            if i < before.len() {
                assert(all[i] == before[i]);
            }
        }
        assert forall|i: int, j: int| 0 <= i < j < all.len() implies #[trigger] all[i]
            < #[trigger] all[j] by {
            assert(all[i] == before[i]);
            if j < before.len() {
                assert(all[j] == before[j]);
            }
        }
    }
}

} // verus!
