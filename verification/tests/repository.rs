use barnacle::errors::Error;
use barnacle::fsops::FsOp;
use barnacle::repo::{DeployKind, Repository};

fn fresh(name: &str) -> Repository {
    Repository::open_memory(name, String::from("/tmp/barnacle_lib"), "/tmp/barnacle_bak").unwrap()
}

#[test]
fn game_test_add() {
    let mut repo = fresh("t_game_add");
    let game1 = repo.add_game("Skyrim", DeployKind::CreationEngine).unwrap();
    repo.add_game("Morrowind", DeployKind::OpenMW).unwrap();

    let games = repo.games().unwrap();

    assert!(game1.dir(&repo).is_ok());
    assert_eq!(games.len(), 2);
    assert_eq!(games.first().unwrap().name(&repo).unwrap(), "Morrowind");
    assert!(matches!(
        games.last().unwrap().deploy_kind(&repo).unwrap(),
        DeployKind::CreationEngine
    ));
}

#[test]
fn game_test_remove() {
    let mut repo = fresh("t_game_remove");
    let game = repo.add_game("Skyrim", DeployKind::CreationEngine).unwrap();
    let profile = game.add_profile(&mut repo, "test_profile_1").unwrap();
    let _mod = game.add_mod(&mut repo, "test_mod", None).unwrap();

    assert_eq!(repo.games().unwrap().len(), 1);

    let dir = game.dir(&repo).unwrap();

    game.remove(&mut repo).unwrap();

    // Attempt to remove already removed profile and mod entries.
    assert!(matches!(profile.remove(&mut repo), Err(Error::RemovedEntity)));
    assert!(matches!(_mod.remove(&mut repo), Err(Error::RemovedEntity)));

    // The directory tree removal is queued for the embedding program.
    let ops = repo.take_fs_ops();
    assert!(ops
        .iter()
        .any(|op| matches!(op, FsOp::RemoveDirAll(d) if *d == dir)));
    assert_eq!(repo.games().unwrap().len(), 0);
}

#[test]
fn test_list() {
    let mut repo = fresh("t_game_list");
    assert_eq!(repo.games().unwrap().len(), 0);
    repo.add_game("Skyrim", DeployKind::CreationEngine).unwrap();
    assert_eq!(repo.games().unwrap().len(), 1);
}

#[test]
fn game_test_name() {
    let mut repo = fresh("t_game_name");
    let game = repo
        .add_game("Fallout: New Vegas", DeployKind::Gamebryo)
        .unwrap();
    game.name(&repo).unwrap();
}

#[test]
fn test_set_name() {
    let mut repo = fresh("t_game_set_name");
    let game = repo.add_game("Skyrim", DeployKind::CreationEngine).unwrap();

    assert_eq!(game.name(&repo).unwrap(), "Skyrim");

    game.set_name(&mut repo, "Skyrim 3: Electric Boogaloo").unwrap();

    assert_eq!(game.name(&repo).unwrap(), "Skyrim 3: Electric Boogaloo");
}

#[test]
fn test_deploy_kind() {
    let mut repo = fresh("t_game_deploy");
    let game = repo
        .add_game("Fallout: New Vegas", DeployKind::Gamebryo)
        .unwrap();
    game.deploy_kind(&repo).unwrap();
}

#[test]
fn test_dir() {
    let mut repo = fresh("t_game_dir");
    let game = repo
        .add_game("Fallout: New Vegas", DeployKind::Gamebryo)
        .unwrap();

    let expected_dir = format!(
        "/tmp/barnacle_lib/{}",
        heck::ToSnakeCase::to_snake_case(game.name(&repo).unwrap().as_str())
    );

    assert_eq!(game.dir(&repo).unwrap(), expected_dir);
}

#[test]
fn mod__test_add() {
    let mut repo = fresh("t_mod_add");
    let game = repo.add_game("Morrowind", DeployKind::OpenMW).unwrap();
    let mod_ = game.add_mod(&mut repo, "Test", None).unwrap();

    // An empty directory is queued for a mod without a source archive.
    let dir = mod_.dir(&repo).unwrap();
    let ops = repo.take_fs_ops();
    assert!(ops
        .iter()
        .any(|op| matches!(op, FsOp::CreateDirAll(d) if *d == dir)));
}

#[test]
fn mod__test_remove() {
    let mut repo = fresh("t_mod_remove");
    let game = repo.add_game("Skyrim", DeployKind::CreationEngine).unwrap();
    let mod_ = game.add_mod(&mut repo, "Test", None).unwrap();

    assert_eq!(game.mods(&repo).unwrap().len(), 1);

    let dir = mod_.dir(&repo).unwrap();

    mod_.remove(&mut repo).unwrap();

    assert_eq!(game.mods(&repo).unwrap().len(), 0);
    let ops = repo.take_fs_ops();
    assert!(ops
        .iter()
        .any(|op| matches!(op, FsOp::RemoveDirAll(d) if *d == dir)));
}

#[test]
fn test_parent() {
    let mut repo = fresh("t_mod_parent");
    let game = repo.add_game("Morrowind", DeployKind::OpenMW).unwrap();
    let mod_ = game.add_mod(&mut repo, "Test", None).unwrap();

    assert_eq!(mod_.parent(&repo).unwrap(), game);
}

#[test]
fn mod__test_name() {
    let mut repo = fresh("t_mod_name");
    repo.add_game("Fallout: New Vegas", DeployKind::Gamebryo)
        .unwrap()
        .add_mod(&mut repo, "Test", None)
        .unwrap()
        .name(&repo)
        .unwrap();
}

#[test]
fn mod_entry_test_add() {
    let mut repo = fresh("t_entry_add");
    let game = repo.add_game("Morrowind", DeployKind::OpenMW).unwrap();
    let profile = game.add_profile(&mut repo, "Test").unwrap();

    let mod1 = game.add_mod(&mut repo, "Super Duper Mod", None).unwrap();
    let mod2 = game.add_mod(&mut repo, "Super Duper Mod: 2", None).unwrap();

    profile.add_mod_entry(&mut repo, mod1).unwrap();
    profile.add_mod_entry(&mut repo, mod2).unwrap();

    assert_eq!(profile.mod_entries(&repo).unwrap().len(), 2);
}

#[test]
fn mod_entry_test_remove() {
    let mut repo = fresh("t_entry_remove");
    let game = repo.add_game("Morrowind", DeployKind::OpenMW).unwrap();
    let profile = game.add_profile(&mut repo, "Test").unwrap();

    let mut mod_entries = Vec::new();
    for i in 1..=6 {
        let m = game.add_mod(&mut repo, &format!("Mod{i}"), None).unwrap();
        mod_entries.push(profile.add_mod_entry(&mut repo, m).unwrap());
    }

    assert_eq!(profile.mod_entries(&repo).unwrap().len(), 6);

    // Remove the first, the (then-current) fourth, and the last entry.
    for picked in [0usize, 3, 5] {
        let entry = &mod_entries[picked];
        profile.remove_mod_entry(&mut repo, *entry).unwrap();
        let entries = profile.mod_entries(&repo).unwrap();
        assert!(!entries.iter().any(|e| e.entry_id == entry.entry_id));
    }

    // The three untouched entries remain, in their original relative order.
    let remaining: Vec<_> = mod_entries
        .iter()
        .enumerate()
        .filter_map(|(i, e)| match i {
            0 | 3 | 5 => None,
            _ => Some(e.entry_id),
        })
        .collect();
    let listed: Vec<_> = profile
        .mod_entries(&repo)
        .unwrap()
        .iter()
        .map(|e| e.entry_id)
        .collect();
    assert_eq!(listed, remaining);
}

#[test]
fn mod_entry_test_name() {
    let mut repo = fresh("t_entry_name");
    let game = repo.add_game("Morrowind", DeployKind::OpenMW).unwrap();
    let profile = game.add_profile(&mut repo, "Test").unwrap();
    let mod_ = game.add_mod(&mut repo, "Super Duper Mod", None).unwrap();

    profile
        .add_mod_entry(&mut repo, mod_)
        .unwrap()
        .name(&repo)
        .unwrap();
}

#[test]
fn test_enabled() {
    let mut repo = fresh("t_entry_enabled");
    let game = repo.add_game("Morrowind", DeployKind::OpenMW).unwrap();
    let profile = game.add_profile(&mut repo, "Test").unwrap();
    let mod_ = game.add_mod(&mut repo, "Super Duper Mod", None).unwrap();

    let entry = profile.add_mod_entry(&mut repo, mod_).unwrap();

    assert!(entry.enabled(&repo).unwrap());

    entry.set_enabled(&mut repo, false).unwrap();

    assert!(!entry.enabled(&repo).unwrap());
}

#[test]
fn profile_test_add() {
    let mut repo = fresh("t_profile_add");
    let game = repo.add_game("Morrowind", DeployKind::OpenMW).unwrap();
    let profile = game.add_profile(&mut repo, "Test").unwrap();

    let dir = profile.dir(&repo).unwrap();
    let ops = repo.take_fs_ops();
    assert!(ops
        .iter()
        .any(|op| matches!(op, FsOp::CreateDirAll(d) if *d == dir)));
}

#[test]
fn profile_test_remove() {
    let mut repo = fresh("t_profile_remove");
    let game = repo.add_game("Skyrim", DeployKind::CreationEngine).unwrap();
    let profile = game.add_profile(&mut repo, "Test").unwrap();

    assert_eq!(game.profiles(&repo).unwrap().len(), 1);

    let dir = profile.dir(&repo).unwrap();

    profile.remove(&mut repo).unwrap();

    let ops = repo.take_fs_ops();
    assert!(ops
        .iter()
        .any(|op| matches!(op, FsOp::RemoveDirAll(d) if *d == dir)));
    assert_eq!(game.profiles(&repo).unwrap().len(), 0);
}

#[test]
fn duplicate_game_name_is_rejected() {
    let mut repo = fresh("t_game_dup");
    repo.add_game("Skyrim", DeployKind::CreationEngine).unwrap();
    let second = repo.add_game("Skyrim", DeployKind::Gamebryo);
    assert!(matches!(second, Err(Error::DuplicateName)));
    assert_eq!(repo.games().unwrap().len(), 1);
}

#[test]
fn duplicate_profile_name_is_rejected() {
    let mut repo = fresh("t_profile_dup");
    let game = repo.add_game("Skyrim", DeployKind::CreationEngine).unwrap();
    game.add_profile(&mut repo, "Main").unwrap();
    let second = game.add_profile(&mut repo, "Main");
    assert!(matches!(second, Err(Error::DuplicateName)));
    assert_eq!(game.profiles(&repo).unwrap().len(), 1);
}

#[test]
fn removing_entries_keeps_chain_walkable() {
    let mut repo = fresh("t_entry_chain");
    let game = repo.add_game("Morrowind", DeployKind::OpenMW).unwrap();
    let profile = game.add_profile(&mut repo, "Test").unwrap();
    let m1 = game.add_mod(&mut repo, "One", None).unwrap();
    let m2 = game.add_mod(&mut repo, "Two", None).unwrap();
    let e1 = profile.add_mod_entry(&mut repo, m1).unwrap();
    let _e2 = profile.add_mod_entry(&mut repo, m2).unwrap();

    // Removing the head leaves the second entry, which still names its mod.
    profile.remove_mod_entry(&mut repo, e1).unwrap();
    let entries = profile.mod_entries(&repo).unwrap();
    assert_eq!(entries.len(), 1);
    assert_eq!(entries[0].name(&repo).unwrap(), "Two");
}

#[test]
fn notes_start_empty() {
    let mut repo = fresh("t_entry_notes");
    let game = repo.add_game("Morrowind", DeployKind::OpenMW).unwrap();
    let profile = game.add_profile(&mut repo, "Test").unwrap();
    let mod_ = game.add_mod(&mut repo, "Super Duper Mod", None).unwrap();
    let entry = profile.add_mod_entry(&mut repo, mod_).unwrap();
    assert_eq!(entry.notes(&repo).unwrap(), "");
}

#[test]
fn fresh_stores_start_empty_and_well_formed() {
    let mut repo = Repository::open_fresh_memory(
        "t_fresh_open",
        String::from("/tmp/barnacle_lib"),
        "/tmp/barnacle_bak",
    )
    .unwrap();
    assert_eq!(repo.games().unwrap().len(), 0);
    assert!(repo.active_game().unwrap().is_none());
    repo.add_game("Skyrim", DeployKind::CreationEngine).unwrap();
    assert_eq!(repo.games().unwrap().len(), 1);
}

#[test]
fn search_finds_games_by_exact_name() {
    let mut repo = fresh("t_game_search");
    repo.add_game("Skyrim", DeployKind::CreationEngine).unwrap();
    repo.add_game("Morrowind", DeployKind::OpenMW).unwrap();
    let found = repo.search_game("Skyrim").unwrap().unwrap();
    assert_eq!(found.name(&repo).unwrap(), "Skyrim");
    assert!(repo.search_game("Oblivion").unwrap().is_none());
}

#[test]
fn reopening_a_store_keeps_roots_and_uids() {
    let path = "/tmp/barnacle_reopen_test.db";
    let first = Repository::open_file(path, String::from("/tmp/barnacle_lib"), "/tmp/barnacle_bak")
        .unwrap();
    drop(first);
    // Bootstrapping a second time must not duplicate the root records or
    // reset the uid counter: a game added now is still listed after a third
    // open, and newly added entities keep getting fresh uids.
    let mut second =
        Repository::open_file(path, String::from("/tmp/barnacle_lib"), "/tmp/barnacle_bak")
            .unwrap();
    let name = format!("Game {}", second.games().unwrap().len());
    let added = second.add_game(name.as_str(), DeployKind::Overlay).unwrap();
    let count_after_add = second.games().unwrap().len();
    drop(second);
    let third =
        Repository::open_file(path, String::from("/tmp/barnacle_lib"), "/tmp/barnacle_bak")
            .unwrap();
    let listed = third.games().unwrap();
    assert_eq!(listed.len(), count_after_add);
    assert_eq!(listed.first().unwrap().name(&third).unwrap(), name);
    assert_eq!(listed.first().unwrap().id, added.id);
}

#[test]
fn removing_the_active_game_promotes_the_next() {
    let mut repo = fresh("t_game_promote");
    let g1 = repo.add_game("First", DeployKind::Overlay).unwrap();
    let g2 = repo.add_game("Second", DeployKind::Overlay).unwrap();
    // The first game became active when nothing was active yet.
    assert_eq!(repo.active_game().unwrap().unwrap().id, g1.id);
    g1.remove(&mut repo).unwrap();
    // The remaining game is promoted; removing it leaves none active.
    assert_eq!(repo.active_game().unwrap().unwrap().id, g2.id);
    g2.remove(&mut repo).unwrap();
    assert_eq!(repo.games().unwrap().len(), 0);
    assert!(repo.active_game().unwrap().is_none());
}

#[test]
fn test_set_current() {
    let mut repo = fresh("t_profile_set_current");
    let game = repo.add_game("Morrowind", DeployKind::OpenMW).unwrap();
    let profile = game.add_profile(&mut repo, "Test").unwrap();

    game.activate(&mut repo).unwrap();
    profile.activate(&mut repo).unwrap();
    assert_eq!(
        game.active_profile(&repo).unwrap().unwrap().id,
        profile.id
    );
}

#[test]
fn activating_a_profile_of_an_inactive_game_is_rejected() {
    let mut repo = fresh("t_profile_scope");
    let g1 = repo.add_game("First", DeployKind::Overlay).unwrap();
    let g2 = repo.add_game("Second", DeployKind::Overlay).unwrap();
    let p2 = g2.add_profile(&mut repo, "Other").unwrap();
    g1.activate(&mut repo).unwrap();
    assert!(matches!(
        p2.activate(&mut repo),
        Err(Error::ParentGameMismatch)
    ));
    g2.activate(&mut repo).unwrap();
    p2.activate(&mut repo).unwrap();
    assert_eq!(g2.active_profile(&repo).unwrap().unwrap().id, p2.id);
}

#[test]
fn renaming_a_profile_queues_the_directory_rename() {
    let mut repo = fresh("t_profile_rename");
    let game = repo.add_game("Morrowind", DeployKind::OpenMW).unwrap();
    let profile = game.add_profile(&mut repo, "Old").unwrap();
    let old_dir = profile.dir(&repo).unwrap();
    profile.set_name(&mut repo, "New").unwrap();
    assert_eq!(profile.name(&repo).unwrap(), "New");
    let new_dir = profile.dir(&repo).unwrap();
    let ops = repo.take_fs_ops();
    assert!(ops
        .iter()
        .any(|op| matches!(op, FsOp::Rename(a, b) if *a == old_dir && *b == new_dir)));
}

#[test]
fn removing_the_active_profile_promotes_the_sibling() {
    let mut repo = fresh("t_profile_promote");
    let game = repo.add_game("Morrowind", DeployKind::OpenMW).unwrap();
    let p1 = game.add_profile(&mut repo, "One").unwrap();
    let p2 = game.add_profile(&mut repo, "Two").unwrap();
    game.activate(&mut repo).unwrap();
    p1.activate(&mut repo).unwrap();
    p1.remove(&mut repo).unwrap();
    assert_eq!(game.active_profile(&repo).unwrap().unwrap().id, p2.id);
    p2.remove(&mut repo).unwrap();
    assert!(game.active_profile(&repo).unwrap().is_none());
}
