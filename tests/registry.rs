use dst_mods::{DataBase, List, Mod, RootKind, SteamApps, SyncAction};

fn record(id: usize, name: &str, client_only: bool) -> Mod {
    Mod { name: name.to_string(), id, path: format!("/mods/workshop-{}", id), client_only }
}

fn apps() -> SteamApps {
    SteamApps::load(
        "/steam",
        vec![record(1, "Foo", false)],
        vec![record(1, "Foo", false)],
        vec![record(2, "Bar", true)],
    )
}

#[test]
fn diff_hides_client_only_by_default() {
    let sa = apps();
    let l = sa.list(&List { client: true, all: false, diff: true });
    assert!(l.present.is_empty());
    assert!(l.absent.is_empty());
}

#[test]
fn diff_all_reports_client_only_addition() {
    let sa = apps();
    let l = sa.list(&List { client: true, all: true, diff: true });
    assert_eq!(l.present.len(), 1);
    assert_eq!(l.present[0].id, 2);
    assert_eq!(l.present[0].name, "Bar");
    assert!(l.absent.is_empty());
}

#[test]
fn diff_symmetry_on_both_sides() {
    let sa = SteamApps::load(
        "/steam",
        vec![record(1, "A", false), record(3, "C", false)],
        vec![record(1, "A", false), record(2, "B", false)],
        vec![],
    );
    let c = sa.list(&List { client: true, all: false, diff: true });
    let s = sa.list(&List { client: false, all: false, diff: true });
    let ids = |v: &Vec<Mod>| v.iter().map(|m| m.id).collect::<Vec<usize>>();
    assert_eq!(ids(&c.present), vec![2]);
    assert_eq!(ids(&c.absent), vec![3]);
    assert_eq!(ids(&c.present), ids(&s.absent));
    assert_eq!(ids(&c.absent), ids(&s.present));
}

#[test]
fn plain_list_filters_client_only() {
    let sa = apps();
    let l = sa.list(&List { client: true, all: false, diff: false });
    assert_eq!(l.present.len(), 1);
    assert_eq!(l.present[0].id, 1);
    let l = sa.list(&List { client: true, all: true, diff: false });
    assert_eq!(l.present.len(), 2);
}

#[test]
fn sync_absent_id_warns() {
    let sa = apps();
    let before = sa.server_list.len();
    assert!(matches!(sa.sync(99), SyncAction::NotFound));
    assert_eq!(sa.server_list.len(), before);
    assert_eq!(sa.server_list[0].id, 1);
}

#[test]
fn sync_present_id_copies_into_server_root() {
    let sa = apps();
    match sa.sync(2) {
        SyncAction::Copy { from, to } => {
            assert_eq!(from, "/mods/workshop-2");
            assert_eq!(to, "/steam/common/Don't Starve Together Dedicated Server/mods/workshop-2");
        }
        SyncAction::NotFound => panic!("expected a copy"),
    }
}

#[test]
fn later_client_root_wins() {
    let sa = SteamApps::load("/steam", vec![], vec![record(5, "Old", false)], vec![record(5, "New", false)]);
    assert_eq!(sa.client_list.len(), 1);
    assert_eq!(sa.client_list[0].name, "New");
}

#[test]
fn remove_targets() {
    let sa = apps();
    let c = sa.remove(7, true);
    assert_eq!(c, vec![
        "/steam/common/Don't Starve Together/mods/workshop-7".to_string(),
        "/steam/workshop/content/322330/7".to_string(),
    ]);
    let s = sa.remove(7, false);
    assert_eq!(s, vec!["/steam/common/Don't Starve Together Dedicated Server/mods/workshop-7".to_string()]);
}

#[test]
fn read_options_prefers_client() {
    let sa = SteamApps::load("/steam", vec![record(4, "Server", false)], vec![record(4, "Client", false)], vec![]);
    assert_eq!(sa.read_options(4).unwrap().name, "Client");
    let sa = SteamApps::load("/steam", vec![record(4, "Server", false)], vec![], vec![]);
    assert_eq!(sa.read_options(4).unwrap().name, "Server");
    assert!(sa.read_options(8).is_none());
}

#[test]
fn folder_names_per_root_kind() {
    let w = DataBase { path: "/a/".to_string(), kind: RootKind::Workshop };
    let n = DataBase { path: "/b".to_string(), kind: RootKind::Named };
    assert_eq!(w.get_name(42), "42");
    assert_eq!(n.get_name(42), "workshop-42");
    assert_eq!(w.folder_of(0), "/a/0");
    assert_eq!(n.folder_of(1234567890), "/b/workshop-1234567890");
}

#[test]
fn default_config_is_empty() {
    let c = dst_mods::Config::default();
    assert!(c.steam_apps.is_empty());
    assert!(c.save.is_empty());
}
