//! Log rotation: which files are removed and renamed, in which order.
use vstd::prelude::*;

verus! {

/// Number of numbered backups kept.
pub const KEEP: u32 = 3;

/// Name of backup `i` (`debug.log.<i>`); backup 0 is the current log.
pub open spec fn backup_name(i: int) -> Seq<char> {
    if i == 0 {
        "debug.log"@
    } else {
        "debug.log."@ + seq![(('0' as int) + i) as char]
    }
}

/// The steps of a rotation: remove the oldest backup, then rename each
/// backup to the next number, highest first, ending with the current log.
pub struct RotationPlan {
    pub remove: String,
    pub renames: Vec<(String, String)>,
}

/// The renames of a rotation keeping `keep` backups: `keep - 1 -> keep`,
/// ..., `1 -> 2`, then the current log `-> 1`.
pub open spec fn renames_spec(keep: int) -> Seq<(Seq<char>, Seq<char>)> {
    Seq::new(keep as nat, |k: int| (backup_name(keep - 1 - k), backup_name(keep - k)))
}

/// A directory as a map from file name to contents.
pub type Files = Map<Seq<char>, Seq<u8>>;

/// Renaming `from` to `to`: the file moves and replaces any file named `to`;
/// a missing `from` leaves the directory as it was (the error is ignored).
pub open spec fn rename_file(fs: Files, from: Seq<char>, to: Seq<char>) -> Files {
    if fs.contains_key(from) {
        fs.remove(from).insert(to, fs[from])
    } else {
        fs
    }
}

/// The renames applied in order.
pub open spec fn apply_renames(fs: Files, rs: Seq<(Seq<char>, Seq<char>)>) -> Files
    decreases rs.len(),
{
    if rs.len() == 0 {
        fs
    } else {
        apply_renames(rename_file(fs, rs[0].0, rs[0].1), rs.drop_first())
    }
}

/// A directory after a rotation keeping `keep` backups: the oldest backup is
/// removed, then the renames run.
pub open spec fn rotated(fs: Files, keep: int) -> Files {
    apply_renames(fs.remove(backup_name(keep)), renames_spec(keep))
}

/// Law: rotation keeps the last three logs. Backup `i + 1` afterwards is
/// what backup `i` (the current log for `i == 0`) was before, the current
/// log is gone, the oldest backup is dropped, and other files are untouched.
pub proof fn law_rotation_keeps_last_three(fs: Files, other: Seq<char>)
    requires
        other != backup_name(0),
        other != backup_name(1),
        other != backup_name(2),
        other != backup_name(3),
    ensures
        ({
            let r = rotated(fs, KEEP as int);
            &&& !r.contains_key(backup_name(0))
            &&& forall|i: int|
                0 <= i < 3 ==> (r.contains_key(#[trigger] backup_name(i + 1)) == fs.contains_key(backup_name(i)))
            &&& forall|i: int|
                0 <= i < 3 && fs.contains_key(#[trigger] backup_name(i)) ==> r[backup_name(i + 1)] == fs[backup_name(i)]
            &&& r.contains_key(other) == fs.contains_key(other)
            &&& fs.contains_key(other) ==> r[other] == fs[other]
        }),
{
    let b0 = backup_name(0);
    let b1 = backup_name(1);
    let b2 = backup_name(2);
    let b3 = backup_name(3);
    lemma_backup_names_distinct();
    let rs = renames_spec(3);
    assert(rs[0] == (b2, b3));
    assert(rs[1] == (b1, b2));
    assert(rs[2] == (b0, b1));
    let f0 = fs.remove(b3);
    let f1 = rename_file(f0, b2, b3);
    let f2 = rename_file(f1, b1, b2);
    let f3 = rename_file(f2, b0, b1);
    assert(rs.drop_first().drop_first().drop_first().len() == 0);
    assert(apply_renames(f3, rs.drop_first().drop_first().drop_first()) == f3);
    assert(apply_renames(f2, rs.drop_first().drop_first()) == f3);
    assert(apply_renames(f1, rs.drop_first()) == f3);
    assert(rotated(fs, 3) == f3);
    assert forall|i: int| 0 <= i < 3 implies (f3.contains_key(#[trigger] backup_name(i + 1)) == fs.contains_key(
        backup_name(i),
    )) by {
        if i == 1 {
            assert(backup_name(i + 1) == b2);
        } else if i == 2 {
            assert(backup_name(i + 1) == b3);
        }
    }
    assert forall|i: int| 0 <= i < 3 && fs.contains_key(#[trigger] backup_name(i)) implies f3[backup_name(i + 1)]
        == fs[backup_name(i)] by {
        if i == 1 {
            assert(backup_name(i + 1) == b2);
        } else if i == 2 {
            assert(backup_name(i + 1) == b3);
        }
    }
}

/// The four names of a rotation are distinct.
proof fn lemma_backup_names_distinct()
    ensures
        backup_name(0) != backup_name(1),
        backup_name(0) != backup_name(2),
        backup_name(0) != backup_name(3),
        backup_name(1) != backup_name(2),
        backup_name(1) != backup_name(3),
        backup_name(2) != backup_name(3),
{
    reveal_strlit("debug.log");
    reveal_strlit("debug.log.");
    let b1 = backup_name(1);
    let b2 = backup_name(2);
    let b3 = backup_name(3);
    assert(backup_name(0).len() == 9);
    assert(b1.len() == 11 && b2.len() == 11 && b3.len() == 11);
    assert(b1[10] == '1' && b2[10] == '2' && b3[10] == '3');
}

/// Name of backup `i`.
fn backup_name_exec(i: u32) -> (res: String)
    requires
        i <= 9,
    ensures
        res@ == backup_name(i as int),
{
    if i == 0 {
        return String::from_str("debug.log");
    }
    let mut s = String::from_str("debug.log.");
    let d = ((48u8 + i as u8) as char);
    let digit = [d];
    let t: String = crate::text::string_of(&digit);
    s.append(t.as_str());
    proof {
        assert(digit@ =~= seq![(('0' as int) + i) as char]);
        assert(s@ =~= backup_name(i as int));
    }
    s
}

/// The rotation plan for the debug log, keeping the last three backups.
pub fn rotation_plan() -> (res: RotationPlan)
    ensures
        res.remove@ == backup_name(KEEP as int),
        res.renames@.map_values(|r: (String, String)| (r.0@, r.1@)) == renames_spec(KEEP as int),
{
    let remove = backup_name_exec(KEEP);
    let mut renames: Vec<(String, String)> = Vec::new();
    let mut i: u32 = KEEP;
    while i > 0
        invariant
            i <= KEEP,
            renames@.map_values(|r: (String, String)| (r.0@, r.1@)) == renames_spec(KEEP as int).take(
                (KEEP - i) as int,
            ),
        decreases i,
    {
        let from = backup_name_exec(i - 1);
        let to = backup_name_exec(i);
        let ghost before = renames@;
        renames.push((from, to));
        proof {
            let k = (KEEP - i) as int;
            assert(renames_spec(KEEP as int)[k] == (backup_name(i - 1), backup_name(i as int)));
            assert(renames@.map_values(|r: (String, String)| (r.0@, r.1@)) =~= before.map_values(
                |r: (String, String)| (r.0@, r.1@),
            ).push((backup_name(i - 1), backup_name(i as int))));
            assert(renames_spec(KEEP as int).take(k + 1) =~= renames_spec(KEEP as int).take(k).push(
                renames_spec(KEEP as int)[k],
            ));
            assert(renames@.map_values(|r: (String, String)| (r.0@, r.1@)) =~= renames_spec(KEEP as int).take(k + 1));
        }
        i = i - 1;
    }
    assert(renames_spec(KEEP as int).take(KEEP as int) =~= renames_spec(KEEP as int));
    RotationPlan { remove, renames }
}

} // verus!
