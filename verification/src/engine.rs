//! The installation engine: the ordered actions of one run — plugin
//! install, layout install, variable-file selection, backup, skin install or
//! skin merge — over the file-system model, and the whole pipeline from the
//! archive's entries to the mutated host tree.

use vstd::prelude::*;
use crate::classify::classified_component;
use crate::classify::classified_extension;
use crate::classify::classified_name;
use crate::classify::parse_zip_item;
use crate::classify::seq_str_views;
use crate::classify::split_path;
use crate::classify::split_segments;
use crate::errors::InstallError;
use crate::fstree::FsTree;
use crate::fstree::NodeView;
use crate::fstree::child;
use crate::fstree::dirs_ok;
use crate::fstree::dirs_to;
use crate::fstree::is_dir_spec;
use crate::fstree::is_file_spec;
use crate::fstree::keys_under;
use crate::fstree::merge_ok;
use crate::fstree::merge_result;
use crate::plan::InstallPlan;
use crate::plan::str_eq;

verus! {

/// The staged plugins folder the platform can load.
pub open spec fn plugins_src(temp: Seq<Seq<char>>) -> Seq<Seq<char>> {
    temp.push("Plugins"@).push("64bit"@)
}

/// The host's plugin directory.
pub open spec fn plugins_dest(settings: Seq<Seq<char>>) -> Seq<Seq<char>> {
    settings.push("Plugins"@)
}

/// The staged layouts folder.
pub open spec fn layouts_src(temp: Seq<Seq<char>>) -> Seq<Seq<char>> {
    temp.push("Layouts"@)
}

/// The host's layout directory.
pub open spec fn layouts_dest(settings: Seq<Seq<char>>) -> Seq<Seq<char>> {
    settings.push("Layouts"@)
}

/// The staged folder of one skin.
pub open spec fn skin_src(temp: Seq<Seq<char>>, name: Seq<char>) -> Seq<Seq<char>> {
    temp.push("Skins"@).push(name)
}

/// The live folder of one skin.
pub open spec fn skin_dest(skins: Seq<Seq<char>>, name: Seq<char>) -> Seq<Seq<char>> {
    skins.push(name)
}

/// The dedicated backup folder under the skins directory.
pub open spec fn backup_root(skins: Seq<Seq<char>>) -> Seq<Seq<char>> {
    skins.push("@Backup"@)
}

/// The backup folder of one skin.
pub open spec fn backup_dest(skins: Seq<Seq<char>>, name: Seq<char>) -> Seq<Seq<char>> {
    backup_root(skins).push(name)
}

/// Whether copying a staged component folder succeeds: an absent folder —
/// an archive that ships nothing for this component — means there is
/// nothing to copy, not a failure.
pub open spec fn stage_copy_ok(
    m: Map<Seq<Seq<char>>, NodeView>,
    src: Seq<Seq<char>>,
    dest: Seq<Seq<char>>,
) -> bool {
    !is_dir_spec(m, src) || merge_ok(m, src, dest)
}

/// The tree after copying a staged component folder: unchanged when the
/// folder is absent, merged otherwise.
pub open spec fn stage_copy_map(
    m: Map<Seq<Seq<char>>, NodeView>,
    src: Seq<Seq<char>>,
    dest: Seq<Seq<char>>,
) -> Map<Seq<Seq<char>>, NodeView> {
    if !is_dir_spec(m, src) {
        m
    } else if merge_ok(m, src, dest) {
        merge_result(m, src, dest)
    } else {
        m
    }
}

/// Copies the staged 64-bit plugins into the host's plugin directory; an
/// archive without plugins installs nothing and succeeds.
pub fn move_plugins(t: &mut FsTree, temp_dir: &Vec<String>, settings_path: &Vec<String>) -> (r:
    Result<(), InstallError>)
    requires
        old(t).wf(),
    ensures
        final(t).wf(),
        r is Ok <==> stage_copy_ok(
            old(t)@,
            plugins_src(seq_str_views(temp_dir@)),
            plugins_dest(seq_str_views(settings_path@)),
        ),
        final(t)@ == stage_copy_map(
            old(t)@,
            plugins_src(seq_str_views(temp_dir@)),
            plugins_dest(seq_str_views(settings_path@)),
        ),
        is_dir_spec(old(t)@, plugins_src(seq_str_views(temp_dir@))) && is_file_spec(
            old(t)@,
            plugins_dest(seq_str_views(settings_path@)),
        ) ==> r == Err::<(), InstallError>(InstallError::DestinationIsFile),
        r is Err ==> (r == Err::<(), InstallError>(InstallError::DestinationIsFile) || r
            == Err::<(), InstallError>(InstallError::IoFailure)),
{
    let inner = child(temp_dir, "Plugins");
    let src = child(&inner, "64bit");
    if !t.is_dir(&src) {
        return Ok(());
    }
    let dest = child(settings_path, "Plugins");
    t.merge_copy(&src, &dest)
}

/// Merge-copies the staged layouts tree into the host's layout directory;
/// an archive without layouts installs nothing and succeeds.
pub fn move_layouts(t: &mut FsTree, temp_dir: &Vec<String>, settings_path: &Vec<String>) -> (r:
    Result<(), InstallError>)
    requires
        old(t).wf(),
    ensures
        final(t).wf(),
        r is Ok <==> stage_copy_ok(
            old(t)@,
            layouts_src(seq_str_views(temp_dir@)),
            layouts_dest(seq_str_views(settings_path@)),
        ),
        final(t)@ == stage_copy_map(
            old(t)@,
            layouts_src(seq_str_views(temp_dir@)),
            layouts_dest(seq_str_views(settings_path@)),
        ),
        is_dir_spec(old(t)@, layouts_src(seq_str_views(temp_dir@))) && is_file_spec(
            old(t)@,
            layouts_dest(seq_str_views(settings_path@)),
        ) ==> r == Err::<(), InstallError>(InstallError::DestinationIsFile),
        r is Err ==> (r == Err::<(), InstallError>(InstallError::DestinationIsFile) || r
            == Err::<(), InstallError>(InstallError::IoFailure)),
{
    let src = child(temp_dir, "Layouts");
    if !t.is_dir(&src) {
        return Ok(());
    }
    let dest = child(settings_path, "Layouts");
    t.merge_copy(&src, &dest)
}

/// Whether installing the named skins in order succeeds throughout.
pub open spec fn move_skins_ok(
    m: Map<Seq<Seq<char>>, NodeView>,
    names: Seq<Seq<char>>,
    temp: Seq<Seq<char>>,
    skins: Seq<Seq<char>>,
) -> bool
    decreases names.len(),
{
    names.len() == 0 || (merge_ok(m, skin_src(temp, names[0]), skin_dest(skins, names[0]))
        && move_skins_ok(
        merge_result(m, skin_src(temp, names[0]), skin_dest(skins, names[0])),
        names.drop_first(),
        temp,
        skins,
    ))
}

/// The tree after installing the named skins in order, stopped at the first
/// failing merge.
pub open spec fn move_skins_map(
    m: Map<Seq<Seq<char>>, NodeView>,
    names: Seq<Seq<char>>,
    temp: Seq<Seq<char>>,
    skins: Seq<Seq<char>>,
) -> Map<Seq<Seq<char>>, NodeView>
    decreases names.len(),
{
    if names.len() == 0 {
        m
    } else if merge_ok(m, skin_src(temp, names[0]), skin_dest(skins, names[0])) {
        move_skins_map(
            merge_result(m, skin_src(temp, names[0]), skin_dest(skins, names[0])),
            names.drop_first(),
            temp,
            skins,
        )
    } else {
        m
    }
}

/// Merge-copies every staged skin folder into the host's skins directory,
/// in the plan's order; stops at the first failure, leaving earlier skins
/// installed.
pub fn move_skins(
    t: &mut FsTree,
    plan: &InstallPlan,
    temp_dir: &Vec<String>,
    skins_path: &Vec<String>,
) -> (r: Result<(), InstallError>)
    requires
        old(t).wf(),
    ensures
        final(t).wf(),
        r is Ok <==> move_skins_ok(
            old(t)@,
            seq_str_views(plan.skins@),
            seq_str_views(temp_dir@),
            seq_str_views(skins_path@),
        ),
        final(t)@ == move_skins_map(
            old(t)@,
            seq_str_views(plan.skins@),
            seq_str_views(temp_dir@),
            seq_str_views(skins_path@),
        ),
        r is Err ==> (r == Err::<(), InstallError>(InstallError::SourceNotDirectory) || r
            == Err::<(), InstallError>(InstallError::DestinationIsFile) || r == Err::<
            (),
            InstallError,
        >(InstallError::IoFailure)),
{
    let ghost names = seq_str_views(plan.skins@);
    let ghost tv = seq_str_views(temp_dir@);
    let ghost sv = seq_str_views(skins_path@);
    let staged_skins = child(temp_dir, "Skins");
    let mut i: usize = 0;
    proof {
        assert(names.skip(0) =~= names);
    }
    while i < plan.skins.len()
        invariant
            t.wf(),
            i <= plan.skins@.len(),
            names == seq_str_views(plan.skins@),
            tv == seq_str_views(temp_dir@),
            sv == seq_str_views(skins_path@),
            seq_str_views(staged_skins@) == tv.push("Skins"@),
            move_skins_ok(old(t)@, names, tv, sv) == move_skins_ok(
                t@,
                names.skip(i as int),
                tv,
                sv,
            ),
            move_skins_map(old(t)@, names, tv, sv) == move_skins_map(
                t@,
                names.skip(i as int),
                tv,
                sv,
            ),
        decreases plan.skins.len() - i,
    {
        let ghost rest = names.skip(i as int);
        proof {
            assert(rest[0] == names[i as int]);
            assert(rest.drop_first() =~= names.skip(i + 1));
        }
        let src = child(&staged_skins, plan.skins[i].as_str());
        let dest = child(skins_path, plan.skins[i].as_str());
        proof {
            assert(seq_str_views(src@) == skin_src(tv, names[i as int]));
            assert(seq_str_views(dest@) == skin_dest(sv, names[i as int]));
        }
        match t.merge_copy(&src, &dest) {
            Ok(()) => {},
            Err(e) => {
                return Err(e);
            },
        }
        i = i + 1;
    }
    proof {
        assert(names.skip(names.len() as int) =~= Seq::<Seq<char>>::empty());
    }
    Ok(())
}

/// Merges every staged skin folder into the existing skins: files are added
/// or overwritten, never removed.  The merge path shares the skin-install
/// primitive, so its semantics are those of `move_skins`.
pub fn merge_skins(
    t: &mut FsTree,
    plan: &InstallPlan,
    temp_dir: &Vec<String>,
    skins_path: &Vec<String>,
) -> (r: Result<(), InstallError>)
    requires
        old(t).wf(),
    ensures
        final(t).wf(),
        r is Ok <==> move_skins_ok(
            old(t)@,
            seq_str_views(plan.skins@),
            seq_str_views(temp_dir@),
            seq_str_views(skins_path@),
        ),
        final(t)@ == move_skins_map(
            old(t)@,
            seq_str_views(plan.skins@),
            seq_str_views(temp_dir@),
            seq_str_views(skins_path@),
        ),
        r is Err ==> (r == Err::<(), InstallError>(InstallError::SourceNotDirectory) || r
            == Err::<(), InstallError>(InstallError::DestinationIsFile) || r == Err::<
            (),
            InstallError,
        >(InstallError::IoFailure)),
{
    move_skins(t, plan, temp_dir, skins_path)
}

/// Whether backing up one named skin succeeds: nothing to do when no live
/// folder exists, else the copy into the backup folder must go through.
pub open spec fn backup_step_ok(
    m: Map<Seq<Seq<char>>, NodeView>,
    skins: Seq<Seq<char>>,
    name: Seq<char>,
) -> bool {
    !is_dir_spec(m, skin_dest(skins, name)) || merge_ok(
        m,
        skin_dest(skins, name),
        backup_dest(skins, name),
    )
}

/// The tree after backing up one named skin: its live folder copied intact
/// into the backup folder, then removed from the live tree.
pub open spec fn backup_step_map(
    m: Map<Seq<Seq<char>>, NodeView>,
    skins: Seq<Seq<char>>,
    name: Seq<char>,
) -> Map<Seq<Seq<char>>, NodeView> {
    if !is_dir_spec(m, skin_dest(skins, name)) {
        m
    } else if merge_ok(m, skin_dest(skins, name), backup_dest(skins, name)) {
        merge_result(m, skin_dest(skins, name), backup_dest(skins, name)).remove_keys(
            keys_under(skin_dest(skins, name)),
        )
    } else {
        m
    }
}

/// Whether backing up the named skins in order succeeds throughout.
pub open spec fn backup_names_ok(
    m: Map<Seq<Seq<char>>, NodeView>,
    names: Seq<Seq<char>>,
    skins: Seq<Seq<char>>,
) -> bool
    decreases names.len(),
{
    names.len() == 0 || (backup_step_ok(m, skins, names[0]) && backup_names_ok(
        backup_step_map(m, skins, names[0]),
        names.drop_first(),
        skins,
    ))
}

/// The tree after backing up the named skins in order, stopped at the first
/// failure.
pub open spec fn backup_names_map(
    m: Map<Seq<Seq<char>>, NodeView>,
    names: Seq<Seq<char>>,
    skins: Seq<Seq<char>>,
) -> Map<Seq<Seq<char>>, NodeView>
    decreases names.len(),
{
    if names.len() == 0 {
        m
    } else if backup_step_ok(m, skins, names[0]) {
        backup_names_map(backup_step_map(m, skins, names[0]), names.drop_first(), skins)
    } else {
        m
    }
}

/// Whether the backup folder itself can be had.
pub open spec fn backup_init_ok(m: Map<Seq<Seq<char>>, NodeView>, skins: Seq<Seq<char>>) -> bool {
    is_dir_spec(m, backup_root(skins)) || dirs_ok(m, backup_root(skins))
}

/// The tree once the backup folder exists.
pub open spec fn backup_init_map(m: Map<Seq<Seq<char>>, NodeView>, skins: Seq<Seq<char>>) -> Map<
    Seq<Seq<char>>,
    NodeView,
> {
    if is_dir_spec(m, backup_root(skins)) {
        m
    } else if dirs_ok(m, backup_root(skins)) {
        m.union_prefer_right(dirs_to(backup_root(skins)))
    } else {
        m
    }
}

/// Whether the whole backup pass succeeds.
pub open spec fn create_backup_ok(
    m: Map<Seq<Seq<char>>, NodeView>,
    names: Seq<Seq<char>>,
    skins: Seq<Seq<char>>,
) -> bool {
    backup_init_ok(m, skins) && backup_names_ok(backup_init_map(m, skins), names, skins)
}

/// The tree after the whole backup pass, stopped at the first failure.
pub open spec fn create_backup_map(
    m: Map<Seq<Seq<char>>, NodeView>,
    names: Seq<Seq<char>>,
    skins: Seq<Seq<char>>,
) -> Map<Seq<Seq<char>>, NodeView> {
    if !backup_init_ok(m, skins) {
        m
    } else {
        backup_names_map(backup_init_map(m, skins), names, skins)
    }
}

/// Copies every to-be-replaced skin folder intact into the dedicated backup
/// folder, then deletes it from the live skins tree; skins without a live
/// folder are skipped.
pub fn create_backup(t: &mut FsTree, plan: &InstallPlan, skins_path: &Vec<String>) -> (r: Result<
    (),
    InstallError,
>)
    requires
        old(t).wf(),
    ensures
        final(t).wf(),
        r is Ok <==> create_backup_ok(
            old(t)@,
            seq_str_views(plan.skins@),
            seq_str_views(skins_path@),
        ),
        final(t)@ == create_backup_map(
            old(t)@,
            seq_str_views(plan.skins@),
            seq_str_views(skins_path@),
        ),
        r is Err ==> (r == Err::<(), InstallError>(InstallError::SourceNotDirectory) || r
            == Err::<(), InstallError>(InstallError::DestinationIsFile) || r == Err::<
            (),
            InstallError,
        >(InstallError::IoFailure)),
{
    let ghost names = seq_str_views(plan.skins@);
    let ghost sv = seq_str_views(skins_path@);
    let broot = child(skins_path, "@Backup");
    if !t.is_dir(&broot) {
        match t.create_dir_all(&broot) {
            Ok(()) => {},
            Err(e) => {
                return Err(e);
            },
        }
    }
    let ghost m1 = t@;
    proof {
        assert(m1 == backup_init_map(old(t)@, sv));
        assert(names.skip(0) =~= names);
    }
    let mut i: usize = 0;
    while i < plan.skins.len()
        invariant
            t.wf(),
            i <= plan.skins@.len(),
            names == seq_str_views(plan.skins@),
            sv == seq_str_views(skins_path@),
            seq_str_views(broot@) == backup_root(sv),
            backup_init_ok(old(t)@, sv),
            m1 == backup_init_map(old(t)@, sv),
            backup_names_ok(m1, names, sv) == backup_names_ok(t@, names.skip(i as int), sv),
            backup_names_map(m1, names, sv) == backup_names_map(t@, names.skip(i as int), sv),
        decreases plan.skins.len() - i,
    {
        let ghost rest = names.skip(i as int);
        proof {
            assert(rest[0] == names[i as int]);
            assert(rest.drop_first() =~= names.skip(i + 1));
        }
        let live = child(skins_path, plan.skins[i].as_str());
        let saved = child(&broot, plan.skins[i].as_str());
        proof {
            assert(seq_str_views(live@) == skin_dest(sv, names[i as int]));
            assert(seq_str_views(saved@) == backup_dest(sv, names[i as int]));
        }
        if t.is_dir(&live) {
            match t.merge_copy(&live, &saved) {
                Ok(()) => {},
                Err(e) => {
                    return Err(e);
                },
            }
            t.remove_subtree(&live);
        }
        i = i + 1;
    }
    proof {
        assert(names.skip(names.len() as int) =~= Seq::<Seq<char>>::empty());
    }
    Ok(())
}

/// Installing skins never touches anything under the backup folder, as long
/// as no skin is named like the backup folder itself.
pub proof fn lemma_move_skins_frame(
    m: Map<Seq<Seq<char>>, NodeView>,
    names: Seq<Seq<char>>,
    temp: Seq<Seq<char>>,
    skins: Seq<Seq<char>>,
    k: Seq<Seq<char>>,
)
    requires
        forall|w: int| 0 <= w < names.len() ==> names[w] != "@Backup"@,
        k.len() > skins.len() + 1,
        k[skins.len() as int] == "@Backup"@,
        k.take(skins.len() as int) == skins,
    ensures
        move_skins_map(m, names, temp, skins).contains_key(k) == m.contains_key(k),
        m.contains_key(k) ==> move_skins_map(m, names, temp, skins)[k] == m[k],
    decreases names.len(),
{
    if names.len() > 0 && merge_ok(m, skin_src(temp, names[0]), skin_dest(skins, names[0])) {
        let sd = skin_dest(skins, names[0]);
        assert(!crate::fstree::merge_writes(sd, k)) by {
            if 1 <= k.len() <= sd.len() && k == sd.take(k.len() as int) {
                assert(k.len() == skins.len() + 2);
            }
            if k.len() > sd.len() && k.take(sd.len() as int) == sd {
                assert(k.take(sd.len() as int)[skins.len() as int] == k[skins.len() as int]);
            }
        }
        crate::fstree::lemma_merge_frame(m, skin_src(temp, names[0]), sd, k);
        lemma_move_skins_frame(merge_result(m, skin_src(temp, names[0]), sd), names.drop_first(), temp, skins, k);
        assert(forall|w: int|
            0 <= w < names.drop_first().len() ==> names.drop_first()[w] == names[w + 1]);
    }
}

/// Backing up further skins never touches what already lies in another
/// skin's backup folder.
pub proof fn lemma_backup_names_frame(
    m: Map<Seq<Seq<char>>, NodeView>,
    names: Seq<Seq<char>>,
    skins: Seq<Seq<char>>,
    nm: Seq<char>,
    k: Seq<Seq<char>>,
)
    requires
        forall|w: int| 0 <= w < names.len() ==> names[w] != "@Backup"@ && names[w] != nm,
        k.len() > skins.len() + 2,
        k.take(skins.len() as int + 2) == backup_dest(skins, nm),
        k.take(skins.len() as int) == skins,
    ensures
        backup_names_map(m, names, skins).contains_key(k) == m.contains_key(k),
        m.contains_key(k) ==> backup_names_map(m, names, skins)[k] == m[k],
    decreases names.len(),
{
    if names.len() > 0 && backup_step_ok(m, skins, names[0]) {
        let n0 = names[0];
        let sd = skin_dest(skins, n0);
        let bd = backup_dest(skins, n0);
        let m2 = backup_step_map(m, skins, n0);
        assert(k[skins.len() as int] == "@Backup"@) by {
            assert(k.take(skins.len() as int + 2)[skins.len() as int] == k[skins.len() as int]);
        }
        assert(k[skins.len() as int + 1] == nm) by {
            assert(k.take(skins.len() as int + 2)[skins.len() as int + 1] == k[skins.len() as int + 1]);
        }
        assert(m2.contains_key(k) == m.contains_key(k) && (m.contains_key(k) ==> m2[k]
            == m[k])) by {
            if is_dir_spec(m, sd) {
                assert(!crate::fstree::merge_writes(bd, k)) by {
                    if 1 <= k.len() <= bd.len() && k == bd.take(k.len() as int) {
                        assert(k.len() <= skins.len() + 2);
                    }
                    if k.len() > bd.len() && k.take(bd.len() as int) == bd {
                        assert(k.take(bd.len() as int)[skins.len() as int + 1] == k[skins.len() as int + 1]);
                    }
                }
                crate::fstree::lemma_merge_frame(m, sd, bd, k);
                assert(!crate::fstree::is_under(k, sd)) by {
                    if crate::fstree::is_under(k, sd) {
                        assert(k.take(skins.len() as int + 1)[skins.len() as int] == k[skins.len()
                            as int]);
                    }
                }
            }
        }
        lemma_backup_names_frame(m2, names.drop_first(), skins, nm, k);
        assert(forall|w: int|
            0 <= w < names.drop_first().len() ==> names.drop_first()[w] == names[w + 1]);
    }
}

/// After the backup pass, every file of a skin folder that is about to be
/// replaced lies byte-identical in that skin's backup folder.
pub proof fn lemma_backup_names_keep(
    m: Map<Seq<Seq<char>>, NodeView>,
    names: Seq<Seq<char>>,
    skins: Seq<Seq<char>>,
    i: int,
    rel: Seq<Seq<char>>,
)
    requires
        crate::plan::distinct_names(names),
        forall|w: int| 0 <= w < names.len() ==> names[w] != "@Backup"@,
        backup_names_ok(m, names, skins),
        0 <= i < names.len(),
        rel.len() >= 1,
        is_dir_spec(m, skin_dest(skins, names[i])),
        m.contains_key(skin_dest(skins, names[i]) + rel),
    ensures
        backup_names_map(m, names, skins).contains_key(backup_dest(skins, names[i]) + rel),
        backup_names_map(m, names, skins)[backup_dest(skins, names[i]) + rel] == m[skin_dest(
            skins,
            names[i],
        ) + rel],
    decreases names.len(),
{
    let n0 = names[0];
    let sd0 = skin_dest(skins, n0);
    let bd0 = backup_dest(skins, n0);
    let m2 = backup_step_map(m, skins, n0);
    assert(forall|w: int|
        0 <= w < names.drop_first().len() ==> names.drop_first()[w] == names[w + 1]);
    if i == 0 {
        let k = bd0 + rel;
        crate::fstree::lemma_concat_parts(bd0, rel);
        crate::fstree::lemma_concat_parts(sd0, rel);
        assert(merge_ok(m, sd0, bd0));
        assert(crate::fstree::remap_under(m, sd0, bd0).contains_key(k));
        assert(merge_result(m, sd0, bd0)[k] == m[sd0 + rel]);
        assert(!crate::fstree::is_under(k, sd0)) by {
            if crate::fstree::is_under(k, sd0) {
                assert(k.take(skins.len() as int + 1)[skins.len() as int] == k[skins.len() as int]);
                assert(k[skins.len() as int] == "@Backup"@);
            }
        }
        assert(m2.contains_key(k) && m2[k] == m[sd0 + rel]);
        assert(k.take(skins.len() as int + 2) =~= bd0);
        assert(k.take(skins.len() as int) =~= skins);
        lemma_backup_names_frame(m2, names.drop_first(), skins, n0, k);
    } else {
        let ni = names[i];
        let sdi = skin_dest(skins, ni);
        let ki = sdi + rel;
        crate::fstree::lemma_concat_parts(sdi, rel);
        assert(ni != n0);
        assert(m2.contains_key(ki) && (m2.contains_key(ki) ==> m2[ki] == m[ki]) && is_dir_spec(
            m2,
            sdi,
        )) by {
            if is_dir_spec(m, sd0) {
                assert(!crate::fstree::merge_writes(bd0, ki)) by {
                    if 1 <= ki.len() <= bd0.len() && ki == bd0.take(ki.len() as int) {
                        assert(ki.len() >= skins.len() + 2);
                        assert(bd0.take(ki.len() as int)[skins.len() as int] == "@Backup"@);
                        assert(ki[skins.len() as int] == ni);
                    }
                    if ki.len() > bd0.len() && ki.take(bd0.len() as int) == bd0 {
                        assert(ki.take(bd0.len() as int)[skins.len() as int] == ki[skins.len()
                            as int]);
                    }
                }
                assert(!crate::fstree::merge_writes(bd0, sdi)) by {
                    if 1 <= sdi.len() <= bd0.len() && sdi == bd0.take(sdi.len() as int) {
                        assert(bd0.take(skins.len() as int + 1)[skins.len() as int] == "@Backup"@);
                    }
                }
                crate::fstree::lemma_merge_frame(m, sd0, bd0, ki);
                crate::fstree::lemma_merge_frame(m, sd0, bd0, sdi);
                assert(!crate::fstree::is_under(ki, sd0)) by {
                    if crate::fstree::is_under(ki, sd0) {
                        assert(ki.take(skins.len() as int + 1)[skins.len() as int] == ki[skins.len()
                            as int]);
                    }
                }
                assert(!crate::fstree::is_under(sdi, sd0)) by {
                    if crate::fstree::is_under(sdi, sd0) {
                        assert(sdi.take(skins.len() as int + 1) =~= sdi);
                    }
                }
            }
        }
        lemma_backup_names_keep(m2, names.drop_first(), skins, i - 1, rel);
        assert(names.drop_first()[i - 1] == ni);
        assert(m2[sdi + rel] == m[sdi + rel]);
    }
}

/// With backup enabled on the replace path, every file present in a
/// to-be-replaced skin folder before installation is also present,
/// byte-identical, in that skin's backup folder after the backup pass and
/// the skin install, as long as no skin carries the backup folder's own
/// name and the skin's live folder really is a directory.
pub proof fn lemma_backup_completeness(
    m: Map<Seq<Seq<char>>, NodeView>,
    names: Seq<Seq<char>>,
    temp: Seq<Seq<char>>,
    skins: Seq<Seq<char>>,
    i: int,
    rel: Seq<Seq<char>>,
)
    requires
        crate::plan::distinct_names(names),
        forall|w: int| 0 <= w < names.len() ==> names[w] != "@Backup"@,
        create_backup_ok(m, names, skins),
        0 <= i < names.len(),
        rel.len() >= 1,
        is_dir_spec(m, skin_dest(skins, names[i])),
        m.contains_key(skin_dest(skins, names[i]) + rel),
        m[skin_dest(skins, names[i]) + rel] is File,
    ensures
        ({
            let done = move_skins_map(create_backup_map(m, names, skins), names, temp, skins);
            done.contains_key(backup_dest(skins, names[i]) + rel) && done[backup_dest(
                skins,
                names[i],
            ) + rel] == m[skin_dest(skins, names[i]) + rel]
        }),
{
    let ni = names[i];
    let sdi = skin_dest(skins, ni);
    let ki = sdi + rel;
    let m1 = backup_init_map(m, skins);
    crate::fstree::lemma_concat_parts(sdi, rel);
    assert(m1.contains_key(ki) && m1[ki] == m[ki] && is_dir_spec(m1, sdi)) by {
        if !is_dir_spec(m, backup_root(skins)) && dirs_ok(m, backup_root(skins)) {
            assert(!dirs_to(backup_root(skins)).contains_key(ki)) by {
                if dirs_to(backup_root(skins)).contains_key(ki) {
                    assert(ki.len() <= skins.len() + 1);
                    if ki.len() == skins.len() + 1 {
                        assert(backup_root(skins).take(ki.len() as int) =~= backup_root(
                            skins,
                        ));
                        assert(ki[skins.len() as int] == ni);
                    } else {
                        assert(backup_root(skins).take(ki.len() as int) =~= skins.take(
                            ki.len() as int,
                        ));
                        assert(ki == skins.take(ki.len() as int));
                        assert(ki.len() == skins.len() + 1 + rel.len());
                    }
                }
            }
            assert(!dirs_to(backup_root(skins)).contains_key(sdi)) by {
                if dirs_to(backup_root(skins)).contains_key(sdi) {
                    assert(backup_root(skins).take(skins.len() as int + 1) =~= backup_root(skins));
                    assert(sdi[skins.len() as int] == ni);
                }
            }
        }
    }
    lemma_backup_names_keep(m1, names, skins, i, rel);
    let mb = backup_names_map(m1, names, skins);
    let kb = backup_dest(skins, ni) + rel;
    crate::fstree::lemma_concat_parts(backup_dest(skins, ni), rel);
    assert(mb.contains_key(kb) && mb[kb] == m1[ki]);
    assert(kb.len() > skins.len() + 1);
    assert(kb[skins.len() as int] == "@Backup"@) by {
        assert(kb.take((skins.len() + 2) as int) =~= backup_dest(skins, ni));
        assert(kb.take((skins.len() + 2) as int)[skins.len() as int] == kb[skins.len() as int]);
    }
    assert(kb.take(skins.len() as int) =~= skins);
    lemma_move_skins_frame(mb, names, temp, skins, kb);
}

/// One member of the package archive: its archive-relative path and its
/// decompressed bytes.
pub struct ArchiveEntry {
    pub path: String,
    pub data: Vec<u8>,
}

/// The (path, data) views of the archive's entries.
pub open spec fn entry_views(s: Seq<ArchiveEntry>) -> Seq<(Seq<char>, Seq<u8>)> {
    s.map_values(|e: ArchiveEntry| (e.path@, e.data@))
}

/// The path views of the archive's entries.
pub open spec fn entry_paths(s: Seq<(Seq<char>, Seq<u8>)>) -> Seq<Seq<char>> {
    s.map_values(|e: (Seq<char>, Seq<u8>)| e.0)
}

/// An entry that is not extracted: a plugin that the platform cannot load.
pub open spec fn skip_entry(p: Seq<char>) -> bool {
    classified_component(p) == "Plugins"@ && !(classified_name(p) == "64bit"@
        && classified_extension(p) == "dll"@)
}

/// An entry that only marks a directory: its path ends in the separator.
pub open spec fn dir_marker(p: Seq<char>) -> bool {
    split_segments(p).last().len() == 0
}

/// One entry staged into the tree: skipped plugins add nothing, directory
/// markers create directories, everything else becomes a file with its
/// parents.
pub open spec fn staged_step(
    m: Map<Seq<Seq<char>>, NodeView>,
    p: Seq<char>,
    data: Seq<u8>,
) -> Option<Map<Seq<Seq<char>>, NodeView>> {
    if skip_entry(p) {
        Some(m)
    } else if dir_marker(p) {
        let d = split_segments(p).drop_last();
        if dirs_ok(m, d) {
            Some(m.union_prefer_right(dirs_to(d)))
        } else {
            None
        }
    } else {
        let f = split_segments(p);
        if dirs_ok(m, f.drop_last()) && !is_dir_spec(m, f) {
            Some(
                m.union_prefer_right(dirs_to(f.drop_last())).insert(f, NodeView::File(data)),
            )
        } else {
            None
        }
    }
}

/// The entries staged in order from `m` on, or nothing at the first
/// conflict.
pub open spec fn staged_from(
    m: Map<Seq<Seq<char>>, NodeView>,
    entries: Seq<(Seq<char>, Seq<u8>)>,
) -> Option<Map<Seq<Seq<char>>, NodeView>>
    decreases entries.len(),
{
    if entries.len() == 0 {
        Some(m)
    } else {
        match staged_step(m, entries[0].0, entries[0].1) {
            Some(m2) => staged_from(m2, entries.drop_first()),
            None => None,
        }
    }
}

/// The staging tree an archive extracts to, rooted at the staging
/// directory.
pub open spec fn staged_tree(entries: Seq<(Seq<char>, Seq<u8>)>) -> Option<
    Map<Seq<Seq<char>>, NodeView>,
> {
    staged_from(Map::empty(), entries)
}

/// Every path of a staging tree has at least one segment.
pub proof fn lemma_staged_keys_nonempty(
    m: Map<Seq<Seq<char>>, NodeView>,
    entries: Seq<(Seq<char>, Seq<u8>)>,
)
    requires
        forall|k: Seq<Seq<char>>| m.contains_key(k) ==> k.len() >= 1,
        staged_from(m, entries) is Some,
    ensures
        forall|k: Seq<Seq<char>>|
            staged_from(m, entries).unwrap().contains_key(k) ==> k.len() >= 1,
    decreases entries.len(),
{
    if entries.len() > 0 {
        let m2 = staged_step(m, entries[0].0, entries[0].1).unwrap();
        assert forall|k: Seq<Seq<char>>| m2.contains_key(k) implies k.len() >= 1 by {
            crate::classify::lemma_split_segments_len(entries[0].0);
        }
        lemma_staged_keys_nonempty(m2, entries.drop_first());
    }
}

/// Extracts the archive's entries into a fresh staging tree.  Entries of
/// plugins the platform cannot load are skipped without error.
pub fn stage_entries(entries: &Vec<ArchiveEntry>) -> (r: Result<FsTree, InstallError>)
    ensures
        r is Ok <==> staged_tree(entry_views(entries@)) is Some,
        r matches Ok(t) ==> t.wf() && Some(t@) == staged_tree(entry_views(entries@)),
        r matches Err(e) ==> e == InstallError::IoFailure,
{
    let mut t = FsTree::new();
    let mut i: usize = 0;
    proof {
        assert(entry_views(entries@).skip(0) =~= entry_views(entries@));
    }
    while i < entries.len()
        invariant
            t.wf(),
            i <= entries@.len(),
            staged_from(t@, entry_views(entries@).skip(i as int)) == staged_tree(
                entry_views(entries@),
            ),
        decreases entries.len() - i,
    {
        let ghost ev = entry_views(entries@);
        let ghost rest = ev.skip(i as int);
        proof {
            assert(rest[0] == ev[i as int]);
            assert(rest.drop_first() =~= ev.skip(i + 1));
            assert(ev[i as int].0 == entries@[i as int].path@);
            assert(ev[i as int].1 == entries@[i as int].data@);
        }
        let e = &entries[i];
        let (component, name, extension) = parse_zip_item(e.path.as_str());
        let loadable = str_eq(name.as_str(), "64bit") && str_eq(extension.as_str(), "dll");
        let skip = str_eq(component.as_str(), "Plugins") && !loadable;
        if !skip {
            let segs = split_path(e.path.as_str());
            proof {
                crate::classify::lemma_split_segments_len(e.path@);
            }
            if segs[segs.len() - 1].as_str().is_empty() {
                let d = crate::fstree::prefix_of(&segs, segs.len() - 1);
                proof {
                    assert(seq_str_views(d@) =~= split_segments(e.path@).drop_last());
                }
                match t.create_dir_all(&d) {
                    Ok(()) => {},
                    Err(e2) => {
                        return Err(e2);
                    },
                }
            } else {
                match t.insert_file(&segs, crate::fstree::clone_bytes(&e.data)) {
                    Ok(()) => {},
                    Err(e2) => {
                        return Err(e2);
                    },
                }
            }
        }
        i = i + 1;
    }
    proof {
        assert(entry_views(entries@).skip(entries@.len() as int) =~= Seq::<
            (Seq<char>, Seq<u8>),
        >::empty());
    }
    Ok(t)
}

/// The staging tree re-rooted at the staging directory.
pub open spec fn reroot(
    st: Map<Seq<Seq<char>>, NodeView>,
    temp: Seq<Seq<char>>,
) -> Map<Seq<Seq<char>>, NodeView> {
    Map::new(
        |k: Seq<Seq<char>>|
            k.len() > temp.len() && k.take(temp.len() as int) == temp && st.contains_key(
                k.skip(temp.len() as int),
            ),
        |k: Seq<Seq<char>>| st[k.skip(temp.len() as int)],
    )
}

/// Writing one more staged node under the staging directory re-roots one
/// more entry of the staging tree.
pub proof fn lemma_reroot_insert(
    m1: Map<Seq<Seq<char>>, NodeView>,
    temp: Seq<Seq<char>>,
    mt: Map<Seq<Seq<char>>, NodeView>,
    relv: Seq<Seq<char>>,
    nv: NodeView,
)
    requires
        relv.len() >= 1,
    ensures
        m1.union_prefer_right(dirs_to(temp)).union_prefer_right(reroot(mt, temp)).insert(
            temp + relv,
            nv,
        ) == m1.union_prefer_right(dirs_to(temp)).union_prefer_right(
            reroot(mt.insert(relv, nv), temp),
        ),
{
    crate::fstree::lemma_concat_parts(temp, relv);
    let prev = m1.union_prefer_right(dirs_to(temp)).union_prefer_right(reroot(mt, temp));
    let next = m1.union_prefer_right(dirs_to(temp)).union_prefer_right(
        reroot(mt.insert(relv, nv), temp),
    );
    assert forall|k2: Seq<Seq<char>>| true implies #[trigger] next.contains_key(k2)
        == prev.insert(temp + relv, nv).contains_key(k2) && (next.contains_key(k2)
        ==> next[k2] == prev.insert(temp + relv, nv)[k2]) by {
        if k2.len() > temp.len() && k2.take(temp.len() as int) == temp {
            assert(temp + k2.skip(temp.len() as int) =~= k2);
            if k2.skip(temp.len() as int) == relv {
                assert(k2 == temp + relv);
            }
        }
    }
    assert(prev.insert(temp + relv, nv) =~= next);
}

/// The tree once the staging directory is removed again.
pub open spec fn cleanup_map(
    m: Map<Seq<Seq<char>>, NodeView>,
    temp: Seq<Seq<char>>,
) -> Map<Seq<Seq<char>>, NodeView> {
    m.remove_keys(keys_under(temp))
}

/// The archive holds a manifest entry at its well-known location.
pub open spec fn has_manifest(entries: Seq<(Seq<char>, Seq<u8>)>) -> bool {
    exists|i: int|
        0 <= i < entries.len() && crate::plan::is_manifest_entry(#[trigger] entries[i].0)
}

/// The staging-relative path of the manifest file.
pub open spec fn manifest_path() -> Seq<Seq<char>> {
    seq!["RMSKIN.ini"@]
}

/// The manifest file's bytes in the staging tree, if it was extracted.
pub open spec fn manifest_bytes(st: Map<Seq<Seq<char>>, NodeView>) -> Option<Seq<u8>> {
    if st.contains_key(manifest_path()) {
        match st[manifest_path()] {
            NodeView::File(c) => Some(c),
            NodeView::Dir => None,
        }
    } else {
        None
    }
}

/// The outcome of the pipeline once the staged tree is known: the final
/// tree, with the staging directory removed again whatever happened, and
/// whether every stage succeeded.
pub open spec fn pipeline_outcome(
    m: Map<Seq<Seq<char>>, NodeView>,
    st: Map<Seq<Seq<char>>, NodeView>,
    merge: bool,
    no_backup: bool,
    names: Seq<Seq<char>>,
    temp: Seq<Seq<char>>,
    skins: Seq<Seq<char>>,
    settings: Seq<Seq<char>>,
) -> (Map<Seq<Seq<char>>, NodeView>, bool) {
    let m1 = cleanup_map(m, temp);
    if !dirs_ok(m1, temp) {
        (m1, false)
    } else {
        let m2 = m1.union_prefer_right(dirs_to(temp)).union_prefer_right(reroot(st, temp));
        if !stage_copy_ok(m2, plugins_src(temp), plugins_dest(settings)) {
            (cleanup_map(m2, temp), false)
        } else {
            let m3 = stage_copy_map(m2, plugins_src(temp), plugins_dest(settings));
            if !stage_copy_ok(m3, layouts_src(temp), layouts_dest(settings)) {
                (cleanup_map(m3, temp), false)
            } else {
                let m4 = stage_copy_map(m3, layouts_src(temp), layouts_dest(settings));
                if merge || no_backup {
                    (
                        cleanup_map(move_skins_map(m4, names, temp, skins), temp),
                        move_skins_ok(m4, names, temp, skins),
                    )
                } else {
                    let m5 = create_backup_map(m4, names, skins);
                    if !create_backup_ok(m4, names, skins) {
                        (cleanup_map(m5, temp), false)
                    } else {
                        (
                            cleanup_map(move_skins_map(m5, names, temp, skins), temp),
                            move_skins_ok(m5, names, temp, skins),
                        )
                    }
                }
            }
        }
    }
}

/// Runs one whole installation over the model: checks for the manifest,
/// stages the archive, reads the manifest in either encoding, installs
/// plugins and layouts, then merges the skins or backs up and replaces
/// them, and removes the staging directory again whatever happened after it
/// was created.  A missing manifest aborts before anything is touched.
#[verifier::rlimit(60)]
pub fn run_install(
    t: &mut FsTree,
    entries: &Vec<ArchiveEntry>,
    temp_dir: &Vec<String>,
    skins_path: &Vec<String>,
    settings_path: &Vec<String>,
    no_backup: bool,
) -> (r: Result<InstallPlan, InstallError>)
    requires
        old(t).wf(),
    ensures
        final(t).wf(),
        r == Err::<InstallPlan, InstallError>(InstallError::ManifestMissing) <==> !has_manifest(
            entry_views(entries@),
        ),
        !has_manifest(entry_views(entries@)) ==> final(t)@ == old(t)@,
        has_manifest(entry_views(entries@)) && staged_tree(entry_views(entries@)) is None ==> r
            == Err::<InstallPlan, InstallError>(InstallError::IoFailure) && final(t)@ == old(
            t,
        )@,
        ({
            let st_o = staged_tree(entry_views(entries@));
            (has_manifest(entry_views(entries@)) && st_o is Some) ==> ({
                let st = st_o.unwrap();
                &&& manifest_bytes(st) is None ==> r == Err::<InstallPlan, InstallError>(
                    InstallError::ConfigNotFound,
                ) && final(t)@ == old(t)@
                &&& (manifest_bytes(st) matches Some(bytes) ==> {
                    &&& crate::inireader::config_model(bytes) is None ==> r == Err::<
                        InstallPlan,
                        InstallError,
                    >(InstallError::ConfigParseError) && final(t)@ == old(t)@
                    &&& (crate::inireader::config_model(bytes) matches Some(sections) ==> ({
                        let merge = crate::inireader::section_value(
                            sections,
                            "rmskin"@,
                            "MergeSkins"@,
                        ) == Some("1"@);
                        let names = crate::plan::skin_names(
                            entry_paths(entry_views(entries@)),
                        );
                        let outcome = pipeline_outcome(
                            old(t)@,
                            st,
                            merge,
                            no_backup,
                            names,
                            seq_str_views(temp_dir@),
                            seq_str_views(skins_path@),
                            seq_str_views(settings_path@),
                        );
                        final(t)@ == outcome.0 && (r is Ok <==> outcome.1)
                    }))
                })
            })
        }),
        r matches Ok(plan) ==> plan.wf() && seq_str_views(plan.skins@)
            == crate::plan::skin_names(entry_paths(entry_views(entries@))) && seq_str_views(
            plan.layouts@,
        ) == crate::plan::layout_names(entry_paths(entry_views(entries@))) && seq_str_views(
            plan.plugins@,
        ) == crate::plan::plugin_names(entry_paths(entry_views(entries@))),
{
    let ghost ev = entry_views(entries@);
    let ghost tv = seq_str_views(temp_dir@);
    let ghost sv = seq_str_views(skins_path@);
    let ghost gv = seq_str_views(settings_path@);
    let mut paths: Vec<String> = Vec::new();
    let mut i: usize = 0;
    proof {
        assert(seq_str_views(paths@) =~= entry_paths(ev).take(0));
    }
    while i < entries.len()
        invariant
            i <= entries@.len(),
            ev == entry_views(entries@),
            paths@.len() == i,
            seq_str_views(paths@) == entry_paths(ev).take(i as int),
        decreases entries.len() - i,
    {
        paths.push(entries[i].path.clone());
        proof {
            assert(seq_str_views(paths@) =~= entry_paths(ev).take(i + 1));
        }
        i = i + 1;
    }
    proof {
        assert(entry_paths(ev).take(entries@.len() as int) =~= entry_paths(ev));
        assert forall|w: int| 0 <= w < paths@.len() implies #[trigger] paths@[w]@
            == ev[w].0 by {
            assert(seq_str_views(paths@)[w] == paths@[w]@);
            assert(entry_paths(ev)[w] == ev[w].0);
        }
    }
    let plan = match crate::plan::build_plan(&paths) {
        Ok(p) => p,
        Err(e) => {
            proof {
                if has_manifest(ev) {
                    let w = choose|w: int|
                        0 <= w < ev.len() && crate::plan::is_manifest_entry(ev[w].0);
                    assert(crate::plan::is_manifest_entry(paths@[w]@));
                }
            }
            return Err(e);
        },
    };
    proof {
        assert(has_manifest(ev)) by {
            let w = choose|w: int|
                0 <= w < paths@.len() && crate::plan::is_manifest_entry(paths@[w]@);
            assert(crate::plan::is_manifest_entry(ev[w].0));
        }
    }
    let st = match stage_entries(entries) {
        Ok(st) => st,
        Err(e) => {
            return Err(e);
        },
    };
    let root: Vec<String> = Vec::new();
    let mpath = child(&root, "RMSKIN.ini");
    proof {
        assert(seq_str_views(root@) =~= Seq::<Seq<char>>::empty());
        assert(seq_str_views(mpath@) =~= manifest_path());
    }
    let bytes = match st.read_file(&mpath) {
        Some(b) => b,
        None => {
            return Err(InstallError::ConfigNotFound);
        },
    };
    let doc = match crate::inireader::parse_config(&bytes) {
        Ok(d) => d,
        Err(e) => {
            return Err(e);
        },
    };
    let manifest = crate::inireader::read_manifest(&doc);
    let ghost m0 = t@;
    t.remove_subtree(temp_dir);
    let ghost m1 = t@;
    proof {
        assert(m1 == cleanup_map(m0, tv));
    }
    match t.create_dir_all(temp_dir) {
        Ok(()) => {},
        Err(e) => {
            return Err(e);
        },
    }
    let ghost stm = st@;
    proof {
        lemma_staged_keys_nonempty(Map::empty(), ev);
        crate::fstree::lemma_entries_map_props(st.entries@);
        assert(st.entries@.take(0) =~= Seq::<(Vec<String>, crate::fstree::FsNode)>::empty());
        assert(t@ =~= m1.union_prefer_right(dirs_to(tv)).union_prefer_right(
            reroot(crate::fstree::entries_map(st.entries@.take(0)), tv),
        ));
    }
    let mut j: usize = 0;
    while j < st.entries.len()
        invariant
            t.wf(),
            st.wf(),
            j <= st.entries@.len(),
            tv == seq_str_views(temp_dir@),
            stm == crate::fstree::entries_map(st.entries@),
            forall|k: Seq<Seq<char>>| stm.contains_key(k) ==> k.len() >= 1,
            t@ == m1.union_prefer_right(dirs_to(tv)).union_prefer_right(
                reroot(crate::fstree::entries_map(st.entries@.take(j as int)), tv),
            ),
        decreases st.entries.len() - j,
    {
        let ghost tj = st.entries@.take(j as int);
        let ghost tj1 = st.entries@.take(j + 1);
        let ghost relv = crate::fstree::key_at(st.entries@, j as int);
        proof {
            assert(tj1.drop_last() =~= tj);
            assert(tj1.last() == st.entries@[j as int]);
            crate::fstree::lemma_entries_map_props(st.entries@);
            assert(crate::fstree::entries_map(st.entries@).contains_key(relv));
            assert(relv.len() >= 1);
        }
        let target = crate::fstree::concat_paths(temp_dir, &st.entries[j].0);
        let node = crate::fstree::clone_node(&st.entries[j].1);
        proof {
            assert(seq_str_views(target@) == tv + relv);
        }
        t.set_node(target, node);
        proof {
            let nv = crate::fstree::node_view(st.entries@[j as int].1);
            assert(crate::fstree::entries_map(tj1) == crate::fstree::entries_map(tj).insert(
                relv,
                nv,
            ));
            let prev = m1.union_prefer_right(dirs_to(tv)).union_prefer_right(
                reroot(crate::fstree::entries_map(tj), tv),
            );
            assert(t@ == prev.insert(tv + relv, nv));
            lemma_reroot_insert(m1, tv, crate::fstree::entries_map(tj), relv, nv);
        }
        j = j + 1;
    }
    proof {
        assert(st.entries@.take(st.entries@.len() as int) =~= st.entries@);
    }
    let ghost m2 = t@;
    match move_plugins(t, temp_dir, settings_path) {
        Ok(()) => {},
        Err(e) => {
            t.remove_subtree(temp_dir);
            return Err(e);
        },
    }
    let ghost m3 = t@;
    match move_layouts(t, temp_dir, settings_path) {
        Ok(()) => {},
        Err(e) => {
            t.remove_subtree(temp_dir);
            return Err(e);
        },
    }
    let ghost m4 = t@;
    if manifest.merge_skins {
        match merge_skins(t, &plan, temp_dir, skins_path) {
            Ok(()) => {},
            Err(e) => {
                t.remove_subtree(temp_dir);
                return Err(e);
            },
        }
    } else {
        if !no_backup {
            match create_backup(t, &plan, skins_path) {
                Ok(()) => {},
                Err(e) => {
                    t.remove_subtree(temp_dir);
                    return Err(e);
                },
            }
        }
        match move_skins(t, &plan, temp_dir, skins_path) {
            Ok(()) => {},
            Err(e) => {
                t.remove_subtree(temp_dir);
                return Err(e);
            },
        }
    }
    t.remove_subtree(temp_dir);
    Ok(plan)
}

/// The live and staged copies of every declared variable file whose live
/// copy exists; a variable file with no live copy is skipped, as on a first
/// install.
pub open spec fn keep_pairs(
    m: Map<Seq<Seq<char>>, NodeView>,
    vfs: Seq<Seq<char>>,
    temp: Seq<Seq<char>>,
    skins: Seq<Seq<char>>,
) -> Seq<(Seq<Seq<char>>, Seq<Seq<char>>)>
    decreases vfs.len(),
{
    if vfs.len() == 0 {
        Seq::empty()
    } else {
        let rest = keep_pairs(m, vfs.drop_first(), temp, skins);
        let old_path = skins + split_segments(vfs[0]);
        let new_path = temp.push("Skins"@) + split_segments(vfs[0]);
        if is_file_spec(m, old_path) {
            seq![(old_path, new_path)] + rest
        } else {
            rest
        }
    }
}

/// The pair-of-path views of a pair list.
pub open spec fn pair_path_views(v: Seq<(Vec<String>, Vec<String>)>) -> Seq<
    (Seq<Seq<char>>, Seq<Seq<char>>),
> {
    v.map_values(|p: (Vec<String>, Vec<String>)| (seq_str_views(p.0@), seq_str_views(p.1@)))
}

/// Selects the variable files whose user-set values are to be preserved:
/// for each declared file, the path of its live copy in the host's skins
/// tree and of its staged copy, skipping files with no live copy.
pub fn keep_variables(
    t: &FsTree,
    manifest: &crate::manifest::Manifest,
    temp_dir: &Vec<String>,
    skins_path: &Vec<String>,
) -> (pairs: Vec<(Vec<String>, Vec<String>)>)
    requires
        t.wf(),
    ensures
        pair_path_views(pairs@) == keep_pairs(
            t@,
            seq_str_views(manifest.variable_files@),
            seq_str_views(temp_dir@),
            seq_str_views(skins_path@),
        ),
{
    let ghost vfs = seq_str_views(manifest.variable_files@);
    let ghost tv = seq_str_views(temp_dir@);
    let ghost sv = seq_str_views(skins_path@);
    let staged_skins = child(temp_dir, "Skins");
    let mut pairs: Vec<(Vec<String>, Vec<String>)> = Vec::new();
    let mut i: usize = manifest.variable_files.len();
    proof {
        assert(vfs.skip(vfs.len() as int) =~= Seq::<Seq<char>>::empty());
        assert(pair_path_views(pairs@) =~= keep_pairs(t@, vfs.skip(vfs.len() as int), tv, sv));
    }
    while i > 0
        invariant
            i <= manifest.variable_files@.len(),
            t.wf(),
            vfs == seq_str_views(manifest.variable_files@),
            tv == seq_str_views(temp_dir@),
            sv == seq_str_views(skins_path@),
            seq_str_views(staged_skins@) == tv.push("Skins"@),
            pair_path_views(pairs@) == keep_pairs(t@, vfs.skip(i as int), tv, sv),
        decreases i,
    {
        i = i - 1;
        let ghost rest = vfs.skip(i + 1);
        let vf = &manifest.variable_files[i];
        let segs = split_path(vf.as_str());
        let old_path = crate::fstree::concat_paths(skins_path, &segs);
        let new_path = crate::fstree::concat_paths(&staged_skins, &segs);
        proof {
            assert(vfs.skip(i as int)[0] == vfs[i as int]);
            assert(vfs.skip(i as int).drop_first() =~= rest);
            assert(seq_str_views(old_path@) == sv + split_segments(vfs[i as int]));
            assert(seq_str_views(new_path@) == tv.push("Skins"@) + split_segments(
                vfs[i as int],
            ));
        }
        if t.is_file(&old_path) {
            let ghost pairs0 = pairs@;
            pairs.insert(0, (old_path, new_path));
            proof {
                assert(pair_path_views(pairs@) =~= seq![
                    (sv + split_segments(vfs[i as int]), tv.push("Skins"@) + split_segments(
                        vfs[i as int],
                    )),
                ] + pair_path_views(pairs0));
            }
        }
        proof {
            assert(pair_path_views(pairs@) =~= keep_pairs(t@, vfs.skip(i as int), tv, sv));
        }
    }
    proof {
        assert(vfs.skip(0) =~= vfs);
    }
    pairs
}

} // verus!
