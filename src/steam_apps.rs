//! The registry: the server's add-ons and the client's, side by side.
use vstd::prelude::*;
use crate::database::Mod;
use crate::naming::{DataBase, RootKind, folder_name, joined, join_path};
use crate::keyed::{last_index, lemma_last_index, unique_keys, lemma_put_unique};

verus! {

/// The records keyed by their ids.
pub open spec fn keyed(s: Seq<Mod>) -> Seq<(usize, Mod)> {
    s.map_values(|m: Mod| (m.id, m))
}

/// The record of add-on `id` in a collection.
pub open spec fn mod_of(s: Seq<Mod>, id: usize) -> Option<Mod> {
    let i = last_index(keyed(s), id);
    if i >= 0 {
        Some(s[i])
    } else {
        None
    }
}

/// Adds a record to a collection, replacing the record of the same id.
pub open spec fn put_mod(s: Seq<Mod>, m: Mod) -> Seq<Mod> {
    let i = last_index(keyed(s), m.id);
    if i >= 0 {
        s.update(i, m)
    } else {
        s.push(m)
    }
}

/// Adds the records of `found` to a collection in turn.
pub open spec fn collected(s: Seq<Mod>, found: Seq<Mod>) -> Seq<Mod>
    decreases found.len(),
{
    if found.len() == 0 {
        s
    } else {
        put_mod(collected(s, found.drop_last()), found.last())
    }
}

/// Whether a record is listed: all are with `all`, else those that the
/// server needs.
pub open spec fn listed(m: Mod, all: bool) -> bool {
    all || !m.client_only
}

/// The listed records of a collection, in order.
pub open spec fn shown(s: Seq<Mod>, all: bool) -> Seq<Mod>
    decreases s.len(),
{
    if s.len() == 0 {
        s
    } else if listed(s.last(), all) {
        shown(s.drop_last(), all).push(s.last())
    } else {
        shown(s.drop_last(), all)
    }
}

/// The listed records of `s` whose id `other` does not hold, in order.
pub open spec fn only_in(s: Seq<Mod>, other: Seq<Mod>, all: bool) -> Seq<Mod>
    decreases s.len(),
{
    if s.len() == 0 {
        s
    } else if listed(s.last(), all) && mod_of(other, s.last().id) is None {
        only_in(s.drop_last(), other, all).push(s.last())
    } else {
        only_in(s.drop_last(), other, all)
    }
}

/// What to list, and on which side.
#[derive(Clone, Copy, Debug, PartialEq, Eq, Structural)]
pub struct List {
    /// The client's side rather than the server's.
    pub client: bool,
    /// Client-only add-ons too.
    pub all: bool,
    /// Only the differences from the other side.
    pub diff: bool,
}

/// A listing: `present` holds what the chosen side has (in a diff, only what
/// the other side lacks), `absent` what the other side has and the chosen
/// side lacks (empty unless a diff was asked for).
pub struct Listing {
    pub present: Vec<Mod>,
    pub absent: Vec<Mod>,
}

/// What syncing an add-on comes to.
pub enum SyncAction {
    /// Copy the add-on's folder `from` into the new folder `to`.
    Copy { from: String, to: String },
    /// The client does not have the add-on: warn and go on.
    NotFound,
}

/// The server's and the client's storage roots and the add-ons in each.
pub struct SteamApps {
    /// The client's roots: the installed add-ons, then the workshop content.
    pub client: Vec<DataBase>,
    pub server: DataBase,
    pub client_list: Vec<Mod>,
    pub server_list: Vec<Mod>,
}

pub open spec fn server_dir() -> Seq<char> {
    "common/Don't Starve Together Dedicated Server/mods"@
}

pub open spec fn installed_dir() -> Seq<char> {
    "common/Don't Starve Together/mods"@
}

pub open spec fn workshop_dir() -> Seq<char> {
    "workshop/content/322330"@
}

/// Whether `r` is the server root, the installed root and the workshop root
/// of the base path `base`, in this order.
pub open spec fn roots_of(base: Seq<char>, r: Seq<DataBase>) -> bool {
    &&& r.len() == 3
    &&& r[0].path@ == joined(base, server_dir()) && r[0].kind == RootKind::Named
    &&& r[1].path@ == joined(base, installed_dir()) && r[1].kind == RootKind::Named
    &&& r[2].path@ == joined(base, workshop_dir()) && r[2].kind == RootKind::Workshop
}

fn find_mod(s: &Vec<Mod>, id: usize) -> (r: Option<usize>)
    ensures
        match r {
            Some(i) => last_index(keyed(s@), id) == i as int,
            None => last_index(keyed(s@), id) == -1,
        },
{
    let mut i: usize = s.len();
    assert(keyed(s@).subrange(0, i as int) =~= keyed(s@));
    while i > 0
        invariant
            i <= s@.len(),
            last_index(keyed(s@).subrange(0, i as int), id) == last_index(keyed(s@), id),
        decreases i,
    {
        assert(keyed(s@).subrange(0, i as int).drop_last() =~= keyed(s@).subrange(0, i - 1));
        if s[i - 1].id == id {
            return Some(i - 1);
        }
        i = i - 1;
    }
    None
}

/// Looks up the record of add-on `id` in a collection.
pub fn get_mod(s: &Vec<Mod>, id: usize) -> (r: Option<&Mod>)
    ensures
        match mod_of(s@, id) {
            Some(m) => r == Some(&m),
            None => r is None,
        },
{
    proof { lemma_last_index(keyed(s@), id); }
    match find_mod(s, id) {
        Some(i) => Some(&s[i]),
        None => None,
    }
}

/// Adds each record of `found` to a collection, a later record replacing an
/// earlier one of the same id.
pub fn collect_into(s: &mut Vec<Mod>, found: Vec<Mod>)
    ensures
        final(s)@ == collected(old(s)@, found@),
{
    let ghost start = s@;
    let ghost all = found@;
    let mut found = found;
    assert(all.subrange(0, 0) =~= Seq::<Mod>::empty());
    assert(all.subrange(0, all.len() as int) =~= all);
    while found.len() > 0
        invariant
            found@.len() <= all.len(),
            found@ == all.subrange(all.len() - found@.len(), all.len() as int),
            s@ == collected(start, all.subrange(0, all.len() - found@.len())),
        decreases found.len(),
    {
        let ghost i = all.len() - found@.len();
        assert(all.subrange(0, i + 1).drop_last() =~= all.subrange(0, i));
        let m = found.remove(0);
        assert(found@ =~= all.subrange(i + 1, all.len() as int));
        proof { lemma_last_index(keyed(s@), m.id); }
        match find_mod(s, m.id) {
            Some(k) => {
                s.set(k, m);
            },
            None => {
                s.push(m);
            },
        }
    }
}

proof fn lemma_only_in_members(s: Seq<Mod>, other: Seq<Mod>, all: bool)
    ensures
        forall|m: Mod| only_in(s, other, all).contains(m) <==>
            (s.contains(m) && listed(m, all) && mod_of(other, m.id) is None),
    decreases s.len(),
{
    if s.len() > 0 {
        lemma_only_in_members(s.drop_last(), other, all);
        assert forall|m: Mod| s.contains(m) <==> (s.drop_last().contains(m) || m == s.last()) by {
            if s.contains(m) {
                let j = choose|j: int| 0 <= j < s.len() && s[j] == m;
                if j < s.len() - 1 {
                    assert(s.drop_last()[j] == m);
                }
            }
            if s.drop_last().contains(m) {
                let j = choose|j: int| 0 <= j < s.drop_last().len() && s.drop_last()[j] == m;
                assert(s[j] == m);
            }
            if m == s.last() {
                assert(s[s.len() - 1] == m);
            }
        }
        let p = only_in(s.drop_last(), other, all);
        assert forall|m: Mod| p.push(s.last()).contains(m) <==> (p.contains(m) || m == s.last()) by {
            if p.push(s.last()).contains(m) {
                let j = choose|j: int| 0 <= j < p.len() + 1 && p.push(s.last())[j] == m;
                if j < p.len() {
                    assert(p[j] == m);
                }
            }
            if p.contains(m) {
                let j = choose|j: int| 0 <= j < p.len() && p[j] == m;
                assert(p.push(s.last())[j] == m);
            }
            if m == s.last() {
                assert(p.push(s.last())[p.len() as int] == m);
            }
        }
    }
}

/// A diff is a set operation on ids: a record is among those that `a` has
/// and `b` lacks exactly when `a` holds it, it is listed, and `b` holds no
/// record of its id; and the records the client side reports as its own are
/// those the server side reports as missing.
pub proof fn lemma_diff_symmetry(sa: SteamApps, all: bool)
    ensures
        listing_of(sa, (List { client: true, all, diff: true })).0
            == listing_of(sa, (List { client: false, all, diff: true })).1,
        listing_of(sa, (List { client: false, all, diff: true })).0
            == listing_of(sa, (List { client: true, all, diff: true })).1,
        forall|m: Mod| listing_of(sa, (List { client: true, all, diff: true })).0.contains(m) <==>
            (sa.client_list@.contains(m) && listed(m, all) && mod_of(sa.server_list@, m.id) is None),
        forall|m: Mod| listing_of(sa, (List { client: false, all, diff: true })).0.contains(m) <==>
            (sa.server_list@.contains(m) && listed(m, all) && mod_of(sa.client_list@, m.id) is None),
{
    lemma_only_in_members(sa.client_list@, sa.server_list@, all);
    lemma_only_in_members(sa.server_list@, sa.client_list@, all);
}

/// The two lists that `list` reports for the given arguments.
pub open spec fn listing_of(sa: SteamApps, args: List) -> (Seq<Mod>, Seq<Mod>) {
    let (side, other) = if args.client {
        (sa.client_list@, sa.server_list@)
    } else {
        (sa.server_list@, sa.client_list@)
    };
    if args.diff {
        (only_in(side, other, args.all), only_in(other, side, args.all))
    } else {
        (shown(side, args.all), Seq::empty())
    }
}

fn filter_mods(s: &Vec<Mod>, other: Option<&Vec<Mod>>, all: bool) -> (r: Vec<Mod>)
    ensures
        match other {
            Some(o) => r@ == only_in(s@, o@, all),
            None => r@ == shown(s@, all),
        },
{
    let mut out: Vec<Mod> = Vec::new();
    let mut i: usize = 0;
    assert(s@.subrange(0, 0) =~= Seq::<Mod>::empty());
    while i < s.len()
        invariant
            i <= s@.len(),
            match other {
                Some(o) => out@ == only_in(s@.subrange(0, i as int), o@, all),
                None => out@ == shown(s@.subrange(0, i as int), all),
            },
        decreases s.len() - i,
    {
        assert(s@.subrange(0, i + 1).drop_last() =~= s@.subrange(0, i as int));
        let m = &s[i];
        let keep = (all || !m.client_only) && match other {
            Some(o) => get_mod(o, m.id).is_none(),
            None => true,
        };
        if keep {
            out.push(m.clone());
        }
        i = i + 1;
    }
    assert(s@.subrange(0, s@.len() as int) =~= s@);
    out
}

impl SteamApps {
    /// The server root, the installed root and the workshop root under the
    /// base path of the game's applications.
    pub fn roots(path: &str) -> (r: Vec<DataBase>)
        ensures
            roots_of(path@, r@),
    {
        let server = DataBase {
            path: join_path(path, "common/Don't Starve Together Dedicated Server/mods"),
            kind: RootKind::Named,
        };
        let installed = DataBase {
            path: join_path(path, "common/Don't Starve Together/mods"),
            kind: RootKind::Named,
        };
        let workshop = DataBase { path: join_path(path, "workshop/content/322330"), kind: RootKind::Workshop };
        vec![server, installed, workshop]
    }

    /// The registry of the base path `path`, from the records found under its
    /// server root, its installed root and its workshop root. The client's
    /// collection takes the workshop records after the installed ones, so a
    /// workshop record wins over an installed one of the same id.
    pub fn load(path: &str, server_found: Vec<Mod>, installed_found: Vec<Mod>, workshop_found: Vec<Mod>) -> (r: SteamApps)
        ensures
            roots_of(path@, seq![r.server].add(r.client@)),
            r.server_list@ == collected(Seq::empty(), server_found@),
            r.client_list@ == collected(collected(Seq::empty(), installed_found@), workshop_found@),
            unique_keys(keyed(r.server_list@)),
            unique_keys(keyed(r.client_list@)),
    {
        proof {
            lemma_collected_unique(Seq::empty(), server_found@);
            lemma_collected_unique(Seq::empty(), installed_found@);
            lemma_collected_unique(collected(Seq::empty(), installed_found@), workshop_found@);
        }
        let mut roots = SteamApps::roots(path);
        let workshop = roots.pop().unwrap();
        let installed = roots.pop().unwrap();
        let server = roots.pop().unwrap();
        let mut server_list: Vec<Mod> = Vec::new();
        collect_into(&mut server_list, server_found);
        let mut client_list: Vec<Mod> = Vec::new();
        collect_into(&mut client_list, installed_found);
        collect_into(&mut client_list, workshop_found);
        let r = SteamApps { client: vec![installed, workshop], server, client_list, server_list };
        assert(seq![r.server].add(r.client@) =~= seq![server, installed, workshop]);
        r
    }

    /// What syncing add-on `id` to the server comes to: a copy of the client's
    /// folder of it into the server root, or a warning where the client does
    /// not have it.
    pub fn sync(&self, id: usize) -> (r: SyncAction)
        ensures
            match mod_of(self.client_list@, id) {
                Some(m) => r matches SyncAction::Copy { from, to } && from == m.path
                    && to@ == joined(self.server.path@, folder_name(self.server.kind, m.id as nat)),
                None => r is NotFound,
            },
    {
        match get_mod(&self.client_list, id) {
            Some(m) => SyncAction::Copy { from: m.path.clone(), to: self.server.folder_of(m.id) },
            None => SyncAction::NotFound,
        }
    }

    /// The folders to delete to remove add-on `id`: its folder under every
    /// client root, or under the server root.
    pub fn remove(&self, id: usize, client: bool) -> (r: Vec<String>)
        ensures
            client ==> r@.len() == self.client@.len() && forall|i: int| 0 <= i < r@.len() ==>
                #[trigger] r@[i]@ == joined(self.client@[i].path@, folder_name(self.client@[i].kind, id as nat)),
            !client ==> r@.len() == 1 && r@[0]@ == joined(self.server.path@, folder_name(self.server.kind, id as nat)),
    {
        let mut out: Vec<String> = Vec::new();
        if client {
            let mut i: usize = 0;
            while i < self.client.len()
                invariant
                    i <= self.client@.len(),
                    out@.len() == i,
                    forall|j: int| 0 <= j < i ==>
                        #[trigger] out@[j]@ == joined(self.client@[j].path@, folder_name(self.client@[j].kind, id as nat)),
                decreases self.client.len() - i,
            {
                out.push(self.client[i].folder_of(id));
                i = i + 1;
            }
        } else {
            out.push(self.server.folder_of(id));
        }
        out
    }

    /// The add-ons of one side, or the differences between the two sides.
    pub fn list(&self, args: &List) -> (r: Listing)
        ensures
            (r.present@, r.absent@) == listing_of(*self, *args),
    {
        let (side, other) = if args.client {
            (&self.client_list, &self.server_list)
        } else {
            (&self.server_list, &self.client_list)
        };
        if args.diff {
            Listing { present: filter_mods(side, Some(other), args.all), absent: filter_mods(other, Some(side), args.all) }
        } else {
            Listing { present: filter_mods(side, None, args.all), absent: Vec::new() }
        }
    }

    /// The add-on whose options to show: the client's record of `id`, else
    /// the server's, else none.
    pub fn read_options(&self, id: usize) -> (r: Option<&Mod>)
        ensures
            match (mod_of(self.client_list@, id), mod_of(self.server_list@, id)) {
                (Some(m), _) => r == Some(&m),
                (None, Some(m)) => r == Some(&m),
                (None, None) => r is None,
            },
    {
        match get_mod(&self.client_list, id) {
            Some(m) => Some(m),
            None => get_mod(&self.server_list, id),
        }
    }
}

/// Collecting records keeps one record per id.
pub proof fn lemma_collected_unique(s: Seq<Mod>, found: Seq<Mod>)
    requires
        unique_keys(keyed(s)),
    ensures
        unique_keys(keyed(collected(s, found))),
    decreases found.len(),
{
    if found.len() > 0 {
        lemma_collected_unique(s, found.drop_last());
        let c = collected(s, found.drop_last());
        let m = found.last();
        lemma_put_unique(keyed(c), m.id, m);
        lemma_last_index(keyed(c), m.id);
        let i = last_index(keyed(c), m.id);
        if i >= 0 {
            assert(keyed(put_mod(c, m)) =~= keyed(c).update(i, (m.id, m)));
        } else {
            assert(keyed(put_mod(c, m)) =~= keyed(c).push((m.id, m)));
        }
    }
}

} // verus!
