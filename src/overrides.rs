//! The override table: per add-on, the option values the server applies at
//! boot, read from and written back to the override script.
use vstd::prelude::*;
use crate::script::{ScriptValue, ScriptTable, literal, field_or_nil, get_field, value2str, decimal, push_decimal};
use crate::naming::{id_of_name, entry_id, join_path, joined};
use crate::keyed::{last_index, lemma_last_index, lemma_last_index_is, unique_keys, lemma_put_unique};

verus! {

/// Option name and literal text pairs, as plain text.
pub open spec fn pairs_view(s: Seq<(String, String)>) -> Seq<(Seq<char>, Seq<char>)> {
    s.map_values(|p: (String, String)| (p.0@, p.1@))
}

/// The table as plain values: add-on ids with their option pairs, in order.
pub open spec fn table_view(s: Seq<(usize, Vec<(String, String)>)>) -> Seq<(usize, Seq<(Seq<char>, Seq<char>)>)> {
    s.map_values(|e: (usize, Vec<(String, String)>)| (e.0, pairs_view(e.1@)))
}

/// Sets option `k` to `v`: in place where it is present, else at the end.
pub open spec fn set_pair(s: Seq<(Seq<char>, Seq<char>)>, k: Seq<char>, v: Seq<char>) -> Seq<(Seq<char>, Seq<char>)> {
    let i = last_index(s, k);
    if i >= 0 {
        s.update(i, (k, v))
    } else {
        s.push((k, v))
    }
}

/// Sets each pair of `new` in turn onto `s`.
pub open spec fn merge_pairs(s: Seq<(Seq<char>, Seq<char>)>, new: Seq<(Seq<char>, Seq<char>)>) -> Seq<(Seq<char>, Seq<char>)>
    decreases new.len(),
{
    if new.len() == 0 {
        s
    } else {
        let p = merge_pairs(s, new.drop_last());
        set_pair(p, new.last().0, new.last().1)
    }
}

/// The value of option `k` in a list of pairs.
pub open spec fn value_of(s: Seq<(Seq<char>, Seq<char>)>, k: Seq<char>) -> Option<Seq<char>> {
    let i = last_index(s, k);
    if i >= 0 {
        Some(s[i].1)
    } else {
        None
    }
}

/// The options recorded for add-on `id`.
pub open spec fn options_for(t: Seq<(usize, Seq<(Seq<char>, Seq<char>)>)>, id: usize) -> Option<Seq<(Seq<char>, Seq<char>)>> {
    let i = last_index(t, id);
    if i >= 0 {
        Some(t[i].1)
    } else {
        None
    }
}

/// The table after merging `new` into the options of `id`: existing options
/// are overwritten, others added; an absent id gets a new entry at the end.
pub open spec fn inserted(
    t: Seq<(usize, Seq<(Seq<char>, Seq<char>)>)>,
    id: usize,
    new: Seq<(Seq<char>, Seq<char>)>,
) -> Seq<(usize, Seq<(Seq<char>, Seq<char>)>)> {
    let i = last_index(t, id);
    if i >= 0 {
        t.update(i, (id, merge_pairs(t[i].1, new)))
    } else {
        t.push((id, merge_pairs(Seq::empty(), new)))
    }
}

/// The table without any entry of add-on `id`.
pub open spec fn removed(
    t: Seq<(usize, Seq<(Seq<char>, Seq<char>)>)>,
    id: usize,
) -> Seq<(usize, Seq<(Seq<char>, Seq<char>)>)>
    decreases t.len(),
{
    if t.len() == 0 {
        t
    } else if t.last().0 == id {
        removed(t.drop_last(), id)
    } else {
        removed(t.drop_last(), id).push(t.last())
    }
}

/// The table with the entry of `id` replaced by `p`, or `p` added at the end.
pub open spec fn set_entry(
    t: Seq<(usize, Seq<(Seq<char>, Seq<char>)>)>,
    id: usize,
    p: Seq<(Seq<char>, Seq<char>)>,
) -> Seq<(usize, Seq<(Seq<char>, Seq<char>)>)> {
    let i = last_index(t, id);
    if i >= 0 {
        t.update(i, (id, p))
    } else {
        t.push((id, p))
    }
}

/// An override file that cannot be read as an override table.
pub enum OverrideFileError {
    /// The script does not evaluate to a table of string-keyed entries.
    NotATable,
    /// The entry under this key is not a table holding a plain
    /// `configuration_options` table.
    BadEntry(String),
    /// This key does not end in an add-on id.
    BadKey(String),
    /// An option under this key holds a value with no literal text.
    BadValue(String),
}

/// The option pairs of a `configuration_options` table's fields.
pub open spec fn pairs_of(fields: Seq<(String, ScriptValue)>) -> Option<Seq<(Seq<char>, Seq<char>)>>
    decreases fields.len(),
{
    if fields.len() == 0 {
        Some(Seq::empty())
    } else {
        match pairs_of(fields.drop_last()) {
            None => None,
            Some(p) => match literal(fields.last().1) {
                None => None,
                Some(v) => Some(set_pair(p, fields.last().0@, v)),
            },
        }
    }
}

/// The id and option pairs of the entry under `key`.
pub open spec fn entry_of(key: String, v: ScriptValue) -> Result<(usize, Seq<(Seq<char>, Seq<char>)>), OverrideFileError> {
    match v {
        ScriptValue::Table(t) => match id_of_name(key@) {
            None => Err(OverrideFileError::BadKey(key)),
            Some(id) => match field_or_nil(t, "configuration_options"@) {
                ScriptValue::Table(c) => if c.items@.len() > 0 {
                    Err(OverrideFileError::BadEntry(key))
                } else {
                    match pairs_of(c.fields@) {
                        Some(p) => Ok((id as usize, p)),
                        None => Err(OverrideFileError::BadValue(key)),
                    }
                },
                _ => Err(OverrideFileError::BadEntry(key)),
            },
        },
        _ => Err(OverrideFileError::BadEntry(key)),
    }
}

/// The table that a list of entries describes; the first bad entry is the
/// error, and a later entry of an id replaces an earlier one.
pub open spec fn entries_of(fields: Seq<(String, ScriptValue)>) -> Result<Seq<(usize, Seq<(Seq<char>, Seq<char>)>)>, OverrideFileError>
    decreases fields.len(),
{
    if fields.len() == 0 {
        Ok(Seq::empty())
    } else {
        match entries_of(fields.drop_last()) {
            Err(e) => Err(e),
            Ok(t) => match entry_of(fields.last().0, fields.last().1) {
                Err(e) => Err(e),
                Ok((id, p)) => Ok(set_entry(t, id, p)),
            },
        }
    }
}

/// The table that an evaluated override script describes.
pub open spec fn parsed(root: ScriptValue) -> Result<Seq<(usize, Seq<(Seq<char>, Seq<char>)>)>, OverrideFileError> {
    match root {
        ScriptValue::Table(t) => if t.items@.len() > 0 {
            Err(OverrideFileError::NotATable)
        } else {
            entries_of(t.fields@)
        },
        _ => Err(OverrideFileError::NotATable),
    }
}

/// The text of the option pairs of one entry.
pub open spec fn pairs_text(p: Seq<(Seq<char>, Seq<char>)>) -> Seq<char>
    decreases p.len(),
{
    if p.len() == 0 {
        Seq::empty()
    } else {
        pairs_text(p.drop_last()) + "\t"@ + p.last().0 + "="@ + p.last().1 + ",\n\t"@
    }
}

/// The text of one entry of the override script.
pub open spec fn entry_text(id: usize, p: Seq<(Seq<char>, Seq<char>)>) -> Seq<char> {
    "\t[\"workshop-"@ + decimal(id as nat) + "\"] = { configuration_options = {"@
        + (if p.len() > 0 { "\n\t"@ } else { Seq::empty() }) + pairs_text(p) + "}, enabled = true },\n"@
}

pub open spec fn entries_text(t: Seq<(usize, Seq<(Seq<char>, Seq<char>)>)>) -> Seq<char>
    decreases t.len(),
{
    if t.len() == 0 {
        Seq::empty()
    } else {
        entries_text(t.drop_last()) + entry_text(t.last().0, t.last().1)
    }
}

/// The override script for a table: a table literal with one entry per add-on.
pub open spec fn script_text(t: Seq<(usize, Seq<(Seq<char>, Seq<char>)>)>) -> Seq<char> {
    "return {\n"@ + entries_text(t) + "}\n"@
}

/// What committing the table writes: the text, the file it goes to, and the
/// files that then become byte-for-byte copies of that one.
pub struct SinkPlan {
    pub text: String,
    pub primary: String,
    pub copies: Vec<String>,
}

/// The override table of a save directory.
pub struct Override {
    pub paths: Vec<String>,
    pub options: Vec<(usize, Vec<(String, String)>)>,
}

/// The two override files of a save directory, one for each world.
pub fn override_paths(base: &str) -> (r: Vec<String>)
    ensures
        r@.len() == 2,
        r@[0]@ == joined(base@, "DoNotStarveTogether/BearDediServer/world0/modoverrides.lua"@),
        r@[1]@ == joined(base@, "DoNotStarveTogether/BearDediServer/world1/modoverrides.lua"@),
{
    let first = join_path(base, "DoNotStarveTogether/BearDediServer/world0/modoverrides.lua");
    let second = join_path(base, "DoNotStarveTogether/BearDediServer/world1/modoverrides.lua");
    vec![first, second]
}

fn find_key(s: &Vec<(String, String)>, k: &String) -> (r: Option<usize>)
    ensures
        match r {
            Some(i) => last_index(pairs_view(s@), k@) == i as int,
            None => last_index(pairs_view(s@), k@) == -1,
        },
{
    let mut i: usize = s.len();
    assert(pairs_view(s@).subrange(0, i as int) =~= pairs_view(s@));
    while i > 0
        invariant
            i <= s@.len(),
            last_index(pairs_view(s@).subrange(0, i as int), k@) == last_index(pairs_view(s@), k@),
        decreases i,
    {
        assert(pairs_view(s@).subrange(0, i as int).drop_last() =~= pairs_view(s@).subrange(0, i - 1));
        if s[i - 1].0 == *k {
            return Some(i - 1);
        }
        i = i - 1;
    }
    None
}

fn find_id(t: &Vec<(usize, Vec<(String, String)>)>, id: usize) -> (r: Option<usize>)
    ensures
        match r {
            Some(i) => last_index(table_view(t@), id) == i as int,
            None => last_index(table_view(t@), id) == -1,
        },
{
    let mut i: usize = t.len();
    assert(table_view(t@).subrange(0, i as int) =~= table_view(t@));
    while i > 0
        invariant
            i <= t@.len(),
            last_index(table_view(t@).subrange(0, i as int), id) == last_index(table_view(t@), id),
        decreases i,
    {
        assert(table_view(t@).subrange(0, i as int).drop_last() =~= table_view(t@).subrange(0, i - 1));
        if t[i - 1].0 == id {
            return Some(i - 1);
        }
        i = i - 1;
    }
    None
}

/// Sets option `k` to `v` in a list of pairs.
fn put_pair(s: &mut Vec<(String, String)>, k: String, v: String)
    ensures
        pairs_view(final(s)@) == set_pair(pairs_view(old(s)@), k@, v@),
{
    proof { lemma_last_index(pairs_view(s@), k@); }
    match find_key(s, &k) {
        Some(i) => {
            let ghost kv = k@;
            let ghost vv = v@;
            s.set(i, (k, v));
            assert(pairs_view(s@) =~= pairs_view(old(s)@).update(i as int, (kv, vv)));
        },
        None => {
            let ghost kv = k@;
            let ghost vv = v@;
            s.push((k, v));
            assert(pairs_view(s@) =~= pairs_view(old(s)@).push((kv, vv)));
        },
    }
}

fn merge_into(s: &mut Vec<(String, String)>, new: Vec<(String, String)>)
    ensures
        pairs_view(final(s)@) == merge_pairs(pairs_view(old(s)@), pairs_view(new@)),
{
    let mut i: usize = 0;
    let ghost start = pairs_view(s@);
    assert(pairs_view(new@).subrange(0, 0) =~= Seq::<(Seq<char>, Seq<char>)>::empty());
    while i < new.len()
        invariant
            i <= new@.len(),
            pairs_view(s@) == merge_pairs(start, pairs_view(new@).subrange(0, i as int)),
        decreases new.len() - i,
    {
        assert(pairs_view(new@).subrange(0, i + 1).drop_last() =~= pairs_view(new@).subrange(0, i as int));
        let k = new[i].0.clone();
        let v = new[i].1.clone();
        put_pair(s, k, v);
        i = i + 1;
    }
    assert(pairs_view(new@).subrange(0, new@.len() as int) =~= pairs_view(new@));
}

fn read_pairs(c: &ScriptTable) -> (r: Option<Vec<(String, String)>>)
    ensures
        match pairs_of(c.fields@) {
            Some(p) => r matches Some(x) && pairs_view(x@) == p,
            None => r is None,
        },
{
    let mut out: Vec<(String, String)> = Vec::new();
    let mut i: usize = 0;
    assert(pairs_view(out@) =~= Seq::<(Seq<char>, Seq<char>)>::empty());
    assert(c.fields@.subrange(0, 0) =~= Seq::<(String, ScriptValue)>::empty());
    while i < c.fields.len()
        invariant
            i <= c.fields@.len(),
            pairs_of(c.fields@.subrange(0, i as int)) == Some(pairs_view(out@)),
        decreases c.fields.len() - i,
    {
        assert(c.fields@.subrange(0, i + 1).drop_last() =~= c.fields@.subrange(0, i as int));
        match value2str(&c.fields[i].1) {
            Ok(v) => {
                let k = c.fields[i].0.clone();
                put_pair(&mut out, k, v);
            },
            Err(_) => {
                proof { lemma_pairs_none_sticks(c.fields@, i as int); }
                return None;
            },
        }
        i = i + 1;
    }
    assert(c.fields@.subrange(0, c.fields@.len() as int) =~= c.fields@);
    Some(out)
}

proof fn lemma_pairs_none_sticks(s: Seq<(String, ScriptValue)>, i: int)
    requires
        0 <= i < s.len(),
        pairs_of(s.subrange(0, i + 1)) is None,
    ensures
        pairs_of(s) is None,
    decreases s.len() - i,
{
    if i + 1 < s.len() {
        assert(s.subrange(0, i + 2).drop_last() =~= s.subrange(0, i + 1));
        lemma_pairs_none_sticks(s, i + 1);
    } else {
        assert(s.subrange(0, i + 1) =~= s);
    }
}

proof fn lemma_entries_error_sticks(s: Seq<(String, ScriptValue)>, i: int)
    requires
        0 <= i < s.len(),
        entries_of(s.subrange(0, i + 1)) is Err,
    ensures
        entries_of(s) == entries_of(s.subrange(0, i + 1)),
    decreases s.len() - i,
{
    if i + 1 < s.len() {
        assert(s.subrange(0, i + 2).drop_last() =~= s.subrange(0, i + 1));
        lemma_entries_error_sticks(s, i + 1);
    } else {
        assert(s.subrange(0, i + 1) =~= s);
    }
}

fn read_entry(key: &String, v: &ScriptValue) -> (r: Result<(usize, Vec<(String, String)>), OverrideFileError>)
    ensures
        match (r, entry_of(*key, *v)) {
            (Ok((i, x)), Ok((j, y))) => i == j && pairs_view(x@) == y,
            (Err(e), Err(f)) => e == f,
            _ => false,
        },
{
    let t = match v {
        ScriptValue::Table(t) => t,
        _ => return Err(OverrideFileError::BadEntry(key.clone())),
    };
    let id = match entry_id(key.as_str()) {
        Some(id) => id,
        None => return Err(OverrideFileError::BadKey(key.clone())),
    };
    let c = match get_field(t, "configuration_options") {
        Some(ScriptValue::Table(c)) => c,
        _ => return Err(OverrideFileError::BadEntry(key.clone())),
    };
    if c.items.len() > 0 {
        return Err(OverrideFileError::BadEntry(key.clone()));
    }
    match read_pairs(c) {
        Some(p) => Ok((id, p)),
        None => Err(OverrideFileError::BadValue(key.clone())),
    }
}

impl Override {
    /// The table of the save directory `path`, from the value that its first
    /// override file evaluates to.
    pub fn load(path: &str, content: &ScriptValue) -> (r: Result<Override, OverrideFileError>)
        ensures
            match (r, parsed(*content)) {
                (Ok(o), Ok(t)) => table_view(o.options@) == t && table_wf(t)
                    && o.paths@.len() == 2
                    && o.paths@[0]@ == joined(path@, "DoNotStarveTogether/BearDediServer/world0/modoverrides.lua"@)
                    && o.paths@[1]@ == joined(path@, "DoNotStarveTogether/BearDediServer/world1/modoverrides.lua"@),
                (Err(e), Err(f)) => e == f,
                _ => false,
            },
    {
        proof {
            if let ScriptValue::Table(t) = content {
                lemma_entries_of_wf(t.fields@);
            }
        }
        let paths = override_paths(path);
        let t = match content {
            ScriptValue::Table(t) => t,
            _ => return Err(OverrideFileError::NotATable),
        };
        if t.items.len() > 0 {
            return Err(OverrideFileError::NotATable);
        }
        let mut o = Override { paths, options: Vec::new() };
        let mut i: usize = 0;
        assert(table_view(o.options@) =~= Seq::<(usize, Seq<(Seq<char>, Seq<char>)>)>::empty());
        assert(t.fields@.subrange(0, 0) =~= Seq::<(String, ScriptValue)>::empty());
        while i < t.fields.len()
            invariant
                i <= t.fields@.len(),
                parsed(*content) == entries_of(t.fields@),
                o.paths@.len() == 2,
                o.paths@[0]@ == joined(path@, "DoNotStarveTogether/BearDediServer/world0/modoverrides.lua"@),
                o.paths@[1]@ == joined(path@, "DoNotStarveTogether/BearDediServer/world1/modoverrides.lua"@),
                entries_of(t.fields@.subrange(0, i as int)) == Ok::<Seq<(usize, Seq<(Seq<char>, Seq<char>)>)>, OverrideFileError>(table_view(o.options@)),
            decreases t.fields.len() - i,
        {
            assert(t.fields@.subrange(0, i + 1).drop_last() =~= t.fields@.subrange(0, i as int));
            match read_entry(&t.fields[i].0, &t.fields[i].1) {
                Ok((id, p)) => {
                    proof { lemma_last_index(table_view(o.options@), id); }
                    let ghost pv = pairs_view(p@);
                    let ghost before = o.options@;
                    match find_id(&o.options, id) {
                        Some(k) => {
                            o.options.set(k, (id, p));
                            assert(table_view(o.options@) =~= table_view(before).update(k as int, (id, pv)));
                        },
                        None => {
                            o.options.push((id, p));
                            assert(table_view(o.options@) =~= table_view(before).push((id, pv)));
                        },
                    }
                },
                Err(e) => {
                    proof { lemma_entries_error_sticks(t.fields@, i as int); }
                    return Err(e);
                },
            }
            i = i + 1;
        }
        assert(t.fields@.subrange(0, t.fields@.len() as int) =~= t.fields@);
        Ok(o)
    }

    /// The options recorded for add-on `id`, if any.
    pub fn list(&self, id: usize) -> (r: Option<&Vec<(String, String)>>)
        ensures
            match options_for(table_view(self.options@), id) {
                Some(p) => r matches Some(x) && pairs_view(x@) == p,
                None => r is None,
            },
    {
        proof { lemma_last_index(table_view(self.options@), id); }
        match find_id(&self.options, id) {
            Some(k) => Some(&self.options[k].1),
            None => None,
        }
    }

    /// Merges `opt` into the options of add-on `id`, adding an entry for an
    /// id that has none.
    pub fn insert(&mut self, id: usize, opt: Vec<(String, String)>)
        ensures
            table_view(final(self).options@) == inserted(table_view(old(self).options@), id, pairs_view(opt@)),
            table_wf(table_view(old(self).options@)) ==> table_wf(table_view(final(self).options@)),
            final(self).paths == old(self).paths,
    {
        proof {
            if table_wf(table_view(self.options@)) {
                lemma_inserted_wf(table_view(self.options@), id, pairs_view(opt@));
            }
        }
        proof { lemma_last_index(table_view(self.options@), id); }
        let ghost before = self.options@;
        match find_id(&self.options, id) {
            Some(k) => {
                let (eid, mut items) = self.options.remove(k);
                assert(table_view(before)[k as int] == (eid, pairs_view(items@)));
                merge_into(&mut items, opt);
                let ghost iv = pairs_view(items@);
                self.options.insert(k, (eid, items));
                assert(self.options@ =~= before.update(k as int, self.options@[k as int]));
                assert(table_view(self.options@) =~= table_view(before).update(k as int, (id, iv)));
            },
            None => {
                let mut items: Vec<(String, String)> = Vec::new();
                assert(pairs_view(items@) =~= Seq::<(Seq<char>, Seq<char>)>::empty());
                merge_into(&mut items, opt);
                let ghost iv = pairs_view(items@);
                self.options.push((id, items));
                assert(table_view(self.options@) =~= table_view(before).push((id, iv)));
            },
        }
    }

    /// Drops every entry of add-on `id`.
    pub fn remove(&mut self, id: usize)
        ensures
            table_view(final(self).options@) == removed(table_view(old(self).options@), id),
            table_wf(table_view(old(self).options@)) ==> table_wf(table_view(final(self).options@)),
            final(self).paths == old(self).paths,
    {
        proof {
            if table_wf(table_view(self.options@)) {
                lemma_removed_wf(table_view(self.options@), id);
            }
        }
        let mut kept: Vec<(usize, Vec<(String, String)>)> = Vec::new();
        let mut old_options: Vec<(usize, Vec<(String, String)>)> = Vec::new();
        std::mem::swap(&mut old_options, &mut self.options);
        let ghost src = table_view(old_options@);
        assert(table_view(kept@) =~= removed(src.subrange(0, 0), id));
        assert(src.subrange(0, src.len() as int) =~= src);
        while old_options.len() > 0
            invariant
                old_options@.len() <= src.len(),
                table_view(old_options@) == src.subrange(src.len() - old_options@.len(), src.len() as int),
                table_view(kept@) == removed(src.subrange(0, src.len() - old_options@.len()), id),
            decreases old_options.len(),
        {
            let ghost i = src.len() - old_options@.len();
            let ghost rest = old_options@;
            assert(src.subrange(0, i + 1).drop_last() =~= src.subrange(0, i));
            let e = old_options.remove(0);
            assert(table_view(rest)[0] == src[i]);
            assert(table_view(old_options@) =~= table_view(rest).subrange(1, rest.len() as int));
            if e.0 != id {
                let ghost before = kept@;
                kept.push(e);
                assert(table_view(kept@) =~= table_view(before).push(src[i]));
            }
        }
        assert(src.subrange(0, src.len() as int) =~= src);
        self.options = kept;
    }

    /// The override script for the whole table.
    pub fn dump(&self) -> (r: String)
        ensures
            r@ == script_text(table_view(self.options@)),
    {
        proof {
            reveal_strlit("return {\n");
            reveal_strlit("}\n");
        }
        let mut out = String::from_str("return {\n");
        let ghost t = table_view(self.options@);
        let mut i: usize = 0;
        assert(out@ =~= "return {\n"@ + entries_text(t.subrange(0, 0)));
        while i < self.options.len()
            invariant
                i <= self.options@.len(),
                t == table_view(self.options@),
                out@ == "return {\n"@ + entries_text(t.subrange(0, i as int)),
            decreases self.options.len() - i,
        {
            assert(t.subrange(0, i + 1).drop_last() =~= t.subrange(0, i as int));
            push_entry(&mut out, self.options[i].0, &self.options[i].1);
            assert(out@ =~= "return {\n"@ + entries_text(t.subrange(0, i + 1)));
            i = i + 1;
        }
        assert(t.subrange(0, t.len() as int) =~= t);
        out.append("}\n");
        assert(out@ =~= script_text(t));
        out
    }

    /// What committing the table takes: its script, written to the first
    /// override file, which every other override file then copies.
    pub fn sink(&self) -> (r: SinkPlan)
        requires
            self.paths@.len() >= 1,
        ensures
            r.text@ == script_text(table_view(self.options@)),
            r.primary == self.paths@[0],
            r.copies@ == self.paths@.subrange(1, self.paths@.len() as int),
    {
        let text = self.dump();
        let primary = self.paths[0].clone();
        let mut copies: Vec<String> = Vec::new();
        let mut i: usize = 1;
        while i < self.paths.len()
            invariant
                1 <= i <= self.paths@.len(),
                copies@ == self.paths@.subrange(1, i as int),
            decreases self.paths.len() - i,
        {
            copies.push(self.paths[i].clone());
            assert(copies@ =~= self.paths@.subrange(1, i + 1));
            i = i + 1;
        }
        SinkPlan { text, primary, copies }
    }
}

fn push_entry(out: &mut String, id: usize, p: &Vec<(String, String)>)
    ensures
        final(out)@ == old(out)@ + entry_text(id, pairs_view(p@)),
{
    proof {
        reveal_strlit("\t[\"workshop-");
        reveal_strlit("\"] = { configuration_options = {");
        reveal_strlit("\n\t");
        reveal_strlit("\t");
        reveal_strlit("=");
        reveal_strlit(",\n\t");
        reveal_strlit("}, enabled = true },\n");
    }
    let ghost pv = pairs_view(p@);
    let ghost start = out@;
    out.append("\t[\"workshop-");
    push_decimal(out, id as u64);
    out.append("\"] = { configuration_options = {");
    if p.len() > 0 {
        out.append("\n\t");
    }
    let ghost head = out@;
    let mut i: usize = 0;
    assert(head =~= head + pairs_text(pv.subrange(0, 0)));
    while i < p.len()
        invariant
            i <= p@.len(),
            pv == pairs_view(p@),
            out@ == head + pairs_text(pv.subrange(0, i as int)),
        decreases p.len() - i,
    {
        assert(pv.subrange(0, i + 1).drop_last() =~= pv.subrange(0, i as int));
        out.append("\t");
        out.append(p[i].0.as_str());
        out.append("=");
        out.append(p[i].1.as_str());
        out.append(",\n\t");
        assert(out@ =~= head + pairs_text(pv.subrange(0, i + 1)));
        i = i + 1;
    }
    assert(pv.subrange(0, pv.len() as int) =~= pv);
    out.append("}, enabled = true },\n");
    assert(out@ =~= start + entry_text(id, pv));
}

proof fn lemma_removed_drops(t: Seq<(usize, Seq<(Seq<char>, Seq<char>)>)>, id: usize)
    ensures
        forall|j: int| 0 <= j < removed(t, id).len() ==> removed(t, id)[j].0 != id,
        (forall|j: int| 0 <= j < t.len() ==> t[j].0 != id) ==> removed(t, id) == t,
    decreases t.len(),
{
    if t.len() > 0 {
        lemma_removed_drops(t.drop_last(), id);
        let prev = removed(t.drop_last(), id);
        if t.last().0 != id {
            assert forall|j: int| 0 <= j < removed(t, id).len() implies removed(t, id)[j].0 != id by {
                if j < prev.len() {
                    assert(removed(t, id)[j] == prev[j]);
                }
            }
        }
        if forall|j: int| 0 <= j < t.len() ==> t[j].0 != id {
            assert forall|j: int| 0 <= j < t.drop_last().len() implies t.drop_last()[j].0 != id by {
                assert(t.drop_last()[j] == t[j]);
            }
            assert(t.drop_last().push(t.last()) =~= t);
        }
    }
}

/// Removing an add-on that the table does not hold leaves the table as it is.
pub proof fn lemma_remove_absent(t: Seq<(usize, Seq<(Seq<char>, Seq<char>)>)>, id: usize)
    requires
        options_for(t, id) is None,
    ensures
        removed(t, id) == t,
{
    lemma_last_index(t, id);
    lemma_removed_drops(t, id);
}

/// Removing an add-on twice gives the table that removing it once gives.
pub proof fn lemma_remove_twice(t: Seq<(usize, Seq<(Seq<char>, Seq<char>)>)>, id: usize)
    ensures
        removed(removed(t, id), id) == removed(t, id),
{
    lemma_removed_drops(t, id);
    lemma_removed_drops(removed(t, id), id);
}

proof fn lemma_set_pair_value(s: Seq<(Seq<char>, Seq<char>)>, k: Seq<char>, v: Seq<char>, a: Seq<char>)
    ensures
        value_of(set_pair(s, k, v), a) == if a == k { Some(v) } else { value_of(s, a) },
{
    let r = set_pair(s, k, v);
    lemma_last_index(s, k);
    lemma_last_index(s, a);
    let i = last_index(s, a);
    if a == k {
        if i >= 0 {
            lemma_last_index_is(r, a, i);
        } else {
            lemma_last_index_is(r, a, s.len() as int);
        }
    } else {
        assert forall|j: int| i < j < r.len() implies r[j].0 != a by {
            if j < s.len() && j != last_index(s, k) {
                assert(r[j] == s[j]);
            }
        }
        if i >= 0 {
            assert(r[i] == s[i]);
        }
        lemma_last_index_is(r, a, i);
    }
}

proof fn lemma_inserted_entry(
    t: Seq<(usize, Seq<(Seq<char>, Seq<char>)>)>,
    id: usize,
    new: Seq<(Seq<char>, Seq<char>)>,
)
    ensures
        options_for(inserted(t, id, new), id) == Some(merge_pairs(
            match options_for(t, id) { Some(p) => p, None => Seq::empty() },
            new,
        )),
{
    let r = inserted(t, id, new);
    lemma_last_index(t, id);
    let i = last_index(t, id);
    if i >= 0 {
        lemma_last_index_is(r, id, i);
    } else {
        lemma_last_index_is(r, id, t.len() as int);
    }
}

/// Merging `{a: x}` and then `{b: y}` into the options of one add-on leaves
/// both set; where the add-on had no entry, those two are all it has.
pub proof fn lemma_merge_adds(
    t: Seq<(usize, Seq<(Seq<char>, Seq<char>)>)>,
    id: usize,
    a: Seq<char>,
    x: Seq<char>,
    b: Seq<char>,
    y: Seq<char>,
)
    requires
        a != b,
    ensures
        ({
            let r = inserted(inserted(t, id, seq![(a, x)]), id, seq![(b, y)]);
            &&& options_for(r, id) is Some
            &&& value_of(options_for(r, id).unwrap(), a) == Some(x)
            &&& value_of(options_for(r, id).unwrap(), b) == Some(y)
            &&& options_for(t, id) is None ==> options_for(r, id) == Some(seq![(a, x), (b, y)])
        }),
{
    let t1 = inserted(t, id, seq![(a, x)]);
    let p0 = match options_for(t, id) { Some(p) => p, None => Seq::empty() };
    lemma_inserted_entry(t, id, seq![(a, x)]);
    lemma_inserted_entry(t1, id, seq![(b, y)]);
    assert(seq![(a, x)].drop_last() =~= Seq::<(Seq<char>, Seq<char>)>::empty());
    assert(seq![(b, y)].drop_last() =~= Seq::<(Seq<char>, Seq<char>)>::empty());
    let p1 = set_pair(p0, a, x);
    let p2 = set_pair(p1, b, y);
    assert(merge_pairs(p0, Seq::<(Seq<char>, Seq<char>)>::empty()) == p0);
    assert(merge_pairs(p0, seq![(a, x)]) == p1);
    assert(options_for(t1, id) == Some(p1));
    assert(merge_pairs(p1, Seq::<(Seq<char>, Seq<char>)>::empty()) == p1);
    assert(merge_pairs(p1, seq![(b, y)]) == p2);
    lemma_set_pair_value(p0, a, x, a);
    lemma_set_pair_value(p1, b, y, a);
    lemma_set_pair_value(p1, b, y, b);
    if options_for(t, id) is None {
        assert(last_index(p0, a) == -1);
        assert(p1 =~= seq![(a, x)]);
        assert(last_index(p1.drop_last(), b) == -1);
        assert(last_index(p1, b) == -1);
        assert(p2 =~= seq![(a, x), (b, y)]);
    }
}

/// Merging `{a: z}` after `{a: x}` into the options of one add-on overwrites
/// `a` with `z`; where the add-on had no entry, `a` is all it has.
pub proof fn lemma_merge_overwrites(
    t: Seq<(usize, Seq<(Seq<char>, Seq<char>)>)>,
    id: usize,
    a: Seq<char>,
    x: Seq<char>,
    z: Seq<char>,
)
    ensures
        ({
            let r = inserted(inserted(t, id, seq![(a, x)]), id, seq![(a, z)]);
            &&& options_for(r, id) is Some
            &&& value_of(options_for(r, id).unwrap(), a) == Some(z)
            &&& options_for(t, id) is None ==> options_for(r, id) == Some(seq![(a, z)])
        }),
{
    let t1 = inserted(t, id, seq![(a, x)]);
    let p0 = match options_for(t, id) { Some(p) => p, None => Seq::empty() };
    lemma_inserted_entry(t, id, seq![(a, x)]);
    lemma_inserted_entry(t1, id, seq![(a, z)]);
    assert(seq![(a, x)].drop_last() =~= Seq::<(Seq<char>, Seq<char>)>::empty());
    assert(seq![(a, z)].drop_last() =~= Seq::<(Seq<char>, Seq<char>)>::empty());
    let p1 = set_pair(p0, a, x);
    assert(merge_pairs(p0, Seq::<(Seq<char>, Seq<char>)>::empty()) == p0);
    assert(merge_pairs(p0, seq![(a, x)]) == p1);
    assert(options_for(t1, id) == Some(p1));
    assert(merge_pairs(p1, Seq::<(Seq<char>, Seq<char>)>::empty()) == p1);
    assert(merge_pairs(p1, seq![(a, z)]) == set_pair(p1, a, z));
    lemma_set_pair_value(p1, a, z, a);
    if options_for(t, id) is None {
        assert(p1 =~= seq![(a, x)]);
        assert(last_index(p1, a) == 0);
        assert(set_pair(p1, a, z) =~= seq![(a, z)]);
    }
}

/// The table's invariant: each add-on has one entry, and each option one
/// value in it.
pub open spec fn table_wf(t: Seq<(usize, Seq<(Seq<char>, Seq<char>)>)>) -> bool {
    &&& unique_keys(t)
    &&& forall|i: int| 0 <= i < t.len() ==> unique_keys(#[trigger] t[i].1)
}

proof fn lemma_merge_unique(s: Seq<(Seq<char>, Seq<char>)>, new: Seq<(Seq<char>, Seq<char>)>)
    requires
        unique_keys(s),
    ensures
        unique_keys(merge_pairs(s, new)),
    decreases new.len(),
{
    if new.len() > 0 {
        lemma_merge_unique(s, new.drop_last());
        lemma_put_unique(merge_pairs(s, new.drop_last()), new.last().0, new.last().1);
    }
}

proof fn lemma_set_entry_wf(
    t: Seq<(usize, Seq<(Seq<char>, Seq<char>)>)>,
    id: usize,
    p: Seq<(Seq<char>, Seq<char>)>,
)
    requires
        table_wf(t),
        unique_keys(p),
    ensures
        table_wf(set_entry(t, id, p)),
{
    lemma_put_unique(t, id, p);
    lemma_last_index(t, id);
    let k = last_index(t, id);
    let r = set_entry(t, id, p);
    assert forall|i: int| 0 <= i < r.len() implies unique_keys(#[trigger] r[i].1) by {
        if i < t.len() && i != k {
            assert(r[i] == t[i]);
            assert(unique_keys(t[i].1));
        } else {
            assert(r[i] == (id, p));
        }
    }
}

/// Merging options into the table keeps its invariant.
pub proof fn lemma_inserted_wf(
    t: Seq<(usize, Seq<(Seq<char>, Seq<char>)>)>,
    id: usize,
    new: Seq<(Seq<char>, Seq<char>)>,
)
    requires
        table_wf(t),
    ensures
        table_wf(inserted(t, id, new)),
{
    lemma_last_index(t, id);
    let i = last_index(t, id);
    let p0 = if i >= 0 { t[i].1 } else { Seq::empty() };
    lemma_merge_unique(p0, new);
    lemma_set_entry_wf(t, id, merge_pairs(p0, new));
    assert(inserted(t, id, new) == set_entry(t, id, merge_pairs(p0, new)));
}

proof fn lemma_removed_sub(t: Seq<(usize, Seq<(Seq<char>, Seq<char>)>)>, id: usize)
    ensures
        forall|i: int| 0 <= i < removed(t, id).len() ==> t.contains(#[trigger] removed(t, id)[i]),
    decreases t.len(),
{
    if t.len() > 0 {
        lemma_removed_sub(t.drop_last(), id);
        let p = removed(t.drop_last(), id);
        assert forall|i: int| 0 <= i < removed(t, id).len() implies t.contains(#[trigger] removed(t, id)[i]) by {
            if i < p.len() {
                assert(removed(t, id)[i] == p[i]);
                let j = choose|j: int| 0 <= j < t.drop_last().len() && t.drop_last()[j] == p[i];
                assert(t[j] == p[i]);
            } else {
                assert(removed(t, id)[i] == t[t.len() - 1]);
            }
        }
    }
}

/// Dropping an add-on keeps the table's invariant.
pub proof fn lemma_removed_wf(t: Seq<(usize, Seq<(Seq<char>, Seq<char>)>)>, id: usize)
    requires
        table_wf(t),
    ensures
        table_wf(removed(t, id)),
    decreases t.len(),
{
    if t.len() > 0 {
        let d = t.drop_last();
        assert(table_wf(d)) by {
            assert forall|i: int| 0 <= i < d.len() implies unique_keys(#[trigger] d[i].1) by {
                assert(d[i] == t[i]);
            }
        }
        lemma_removed_wf(d, id);
        lemma_removed_sub(d, id);
        let p = removed(d, id);
        if t.last().0 != id {
            let r = p.push(t.last());
            assert forall|a: int, b: int| 0 <= a < b < r.len() implies #[trigger] r[a].0 != #[trigger] r[b].0 by {
                if b == r.len() - 1 {
                    assert(r[a] == p[a]);
                    assert(d.contains(p[a]));
                    let j = choose|j: int| 0 <= j < d.len() && d[j] == p[a];
                    assert(t[j] == d[j]);
                } else {
                    assert(r[a] == p[a]);
                    assert(r[b] == p[b]);
                }
            }
            assert forall|i: int| 0 <= i < r.len() implies unique_keys(#[trigger] r[i].1) by {
                if i < p.len() {
                    assert(r[i] == p[i]);
                }
            }
        }
    }
}

proof fn lemma_pairs_of_unique(fields: Seq<(String, ScriptValue)>)
    ensures
        pairs_of(fields) matches Some(p) ==> unique_keys(p),
    decreases fields.len(),
{
    if fields.len() > 0 {
        lemma_pairs_of_unique(fields.drop_last());
        if let Some(p) = pairs_of(fields.drop_last()) {
            if let Some(v) = literal(fields.last().1) {
                lemma_put_unique(p, fields.last().0@, v);
            }
        }
    }
}

proof fn lemma_entries_of_wf(fields: Seq<(String, ScriptValue)>)
    ensures
        entries_of(fields) matches Ok(t) ==> table_wf(t),
    decreases fields.len(),
{
    if fields.len() > 0 {
        lemma_entries_of_wf(fields.drop_last());
        if let Ok(t) = entries_of(fields.drop_last()) {
            if let ScriptValue::Table(tt) = fields.last().1 {
                if let ScriptValue::Table(c) = field_or_nil(tt, "configuration_options"@) {
                    lemma_pairs_of_unique(c.fields@);
                }
            }
            if let Ok((id, p)) = entry_of(fields.last().0, fields.last().1) {
                lemma_set_entry_wf(t, id, p);
            }
        }
    }
}

} // verus!
