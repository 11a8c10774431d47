//! Add-on records and what is read out of an add-on's descriptor script.
use vstd::prelude::*;
use crate::script::{ScriptValue, ScriptTable, literal, truthy, field_or_nil, get_field, is_truthy, value2str};

verus! {

/// One selectable item of a configuration option.
pub struct OptionItem {
    pub data: String,
    pub description: Option<String>,
}

/// One configurable option that an add-on declares.
pub struct ModOption {
    pub name: String,
    pub options: Vec<OptionItem>,
    pub description: Option<String>,
    pub default: String,
}

/// One installed add-on.
pub struct Mod {
    pub name: String,
    pub id: usize,
    pub path: String,
    pub client_only: bool,
}

impl Clone for Mod {
    fn clone(&self) -> (r: Self)
        ensures
            r == *self,
    {
        Mod { name: self.name.clone(), id: self.id, path: self.path.clone(), client_only: self.client_only }
    }
}

pub struct OptionItemView {
    pub data: Seq<char>,
    pub description: Option<Seq<char>>,
}

pub struct ModOptionView {
    pub name: Seq<char>,
    pub options: Seq<OptionItemView>,
    pub description: Option<Seq<char>>,
    pub default: Seq<char>,
}

pub open spec fn text_opt(o: Option<String>) -> Option<Seq<char>> {
    match o {
        Some(s) => Some(s@),
        None => None,
    }
}

impl View for OptionItem {
    type V = OptionItemView;

    open spec fn view(&self) -> OptionItemView {
        OptionItemView { data: self.data@, description: text_opt(self.description) }
    }
}

pub open spec fn items_view(s: Seq<OptionItem>) -> Seq<OptionItemView> {
    s.map_values(|i: OptionItem| i@)
}

impl View for ModOption {
    type V = ModOptionView;

    open spec fn view(&self) -> ModOptionView {
        ModOptionView {
            name: self.name@,
            options: items_view(self.options@),
            description: text_opt(self.description),
            default: self.default@,
        }
    }
}

pub open spec fn options_view(s: Seq<ModOption>) -> Seq<ModOptionView> {
    s.map_values(|o: ModOption| o@)
}

/// The field of a descriptor entry that could not be read.
#[derive(Clone, Copy, Debug, PartialEq, Eq, Structural)]
pub enum Field {
    /// The global `name`.
    Name,
    /// The global `client_only_mod`.
    ClientOnly,
    /// The option entry is not a table.
    Entry,
    /// The option's `name`.
    OptionName,
    /// The option's `default`.
    Default,
    /// The option's `options` table.
    Items,
    /// The item at this position of `options` is not a table.
    ItemEntry(usize),
    /// The `data` of the item at this position of `options`.
    ItemData(usize),
}

/// A descriptor script that does not have the shape an add-on needs.
#[derive(Clone, Copy, Debug, PartialEq, Eq, Structural)]
pub enum DescriptorError {
    /// A global the add-on must define is missing or of the wrong kind.
    Global(Field),
    /// The configuration option at this position is malformed.
    Option { index: usize, field: Field },
}

/// An optional text field: present only where it holds a string.
pub open spec fn opt_text(v: ScriptValue) -> Option<Seq<char>> {
    match v {
        ScriptValue::Str(s) => Some(s@),
        _ => None,
    }
}

/// The item at position `k` of an option's `options`.
pub open spec fn item_of(v: ScriptValue, k: nat) -> Result<OptionItemView, Field> {
    match v {
        ScriptValue::Table(t) => match literal(field_or_nil(t, "data"@)) {
            Some(d) => Ok(OptionItemView { data: d, description: opt_text(field_or_nil(t, "description"@)) }),
            None => Err(Field::ItemData(k as usize)),
        },
        _ => Err(Field::ItemEntry(k as usize)),
    }
}

/// The items of an option, in order; the first malformed one is the error.
pub open spec fn items_of(s: Seq<ScriptValue>) -> Result<Seq<OptionItemView>, Field>
    decreases s.len(),
{
    if s.len() == 0 {
        Ok(Seq::empty())
    } else {
        match items_of(s.drop_last()) {
            Err(e) => Err(e),
            Ok(p) => match item_of(s.last(), (s.len() - 1) as nat) {
                Err(e) => Err(e),
                Ok(x) => Ok(p.push(x)),
            },
        }
    }
}

/// One entry of `configuration_options`: `None` for an option marked as
/// client-side, which the server never sees.
pub open spec fn option_of(v: ScriptValue) -> Result<Option<ModOptionView>, Field> {
    match v {
        ScriptValue::Table(t) => if truthy(field_or_nil(t, "client"@)) {
            Ok(None)
        } else {
            match field_or_nil(t, "name"@) {
                ScriptValue::Str(name) => match literal(field_or_nil(t, "default"@)) {
                    Some(default) => match field_or_nil(t, "options"@) {
                        ScriptValue::Table(items) => match items_of(items.items@) {
                            Ok(its) => Ok(Some(ModOptionView {
                                name: name@,
                                options: its,
                                description: opt_text(field_or_nil(t, "label"@)),
                                default,
                            })),
                            Err(e) => Err(e),
                        },
                        _ => Err(Field::Items),
                    },
                    None => Err(Field::Default),
                },
                _ => Err(Field::OptionName),
            }
        },
        _ => Err(Field::Entry),
    }
}

/// The server-side options of a sequence of option entries, in order; the
/// first malformed entry is the error.
pub open spec fn options_of(s: Seq<ScriptValue>) -> Result<Seq<ModOptionView>, DescriptorError>
    decreases s.len(),
{
    if s.len() == 0 {
        Ok(Seq::empty())
    } else {
        match options_of(s.drop_last()) {
            Err(e) => Err(e),
            Ok(p) => match option_of(s.last()) {
                Err(f) => Err(DescriptorError::Option { index: (s.len() - 1) as usize, field: f }),
                Ok(None) => Ok(p),
                Ok(Some(o)) => Ok(p.push(o)),
            },
        }
    }
}

/// The options that the global `configuration_options` declares: none where
/// it is not a table.
pub open spec fn declared_options(config: ScriptValue) -> Result<Seq<ModOptionView>, DescriptorError> {
    match config {
        ScriptValue::Table(t) => options_of(t.items@),
        _ => Ok(Seq::empty()),
    }
}

fn text_field(t: &ScriptTable, key: &str) -> (r: Option<String>)
    ensures
        text_opt(r) == opt_text(field_or_nil(*t, key@)),
{
    match get_field(t, key) {
        Some(ScriptValue::Str(s)) => Some(s.clone()),
        _ => None,
    }
}

fn read_item(v: &ScriptValue, k: usize) -> (r: Result<OptionItem, Field>)
    ensures
        match (r, item_of(*v, k as nat)) {
            (Ok(x), Ok(y)) => x@ == y,
            (Err(e), Err(f)) => e == f,
            _ => false,
        },
{
    match v {
        ScriptValue::Table(t) => {
            let data = match get_field(t, "data") {
                Some(d) => value2str(d),
                None => value2str(&ScriptValue::Nil),
            };
            match data {
                Ok(data) => Ok(OptionItem { data, description: text_field(t, "description") }),
                Err(_) => Err(Field::ItemData(k)),
            }
        },
        _ => Err(Field::ItemEntry(k)),
    }
}

fn read_items(s: &Vec<ScriptValue>) -> (r: Result<Vec<OptionItem>, Field>)
    ensures
        match (r, items_of(s@)) {
            (Ok(x), Ok(y)) => items_view(x@) == y,
            (Err(e), Err(f)) => e == f,
            _ => false,
        },
{
    let mut out: Vec<OptionItem> = Vec::new();
    let mut i: usize = 0;
    assert(items_view(out@) =~= Seq::<OptionItemView>::empty());
    assert(s@.subrange(0, 0) =~= Seq::<ScriptValue>::empty());
    while i < s.len()
        invariant
            i <= s@.len(),
            items_of(s@.subrange(0, i as int)) == Ok::<Seq<OptionItemView>, Field>(items_view(out@)),
        decreases s.len() - i,
    {
        assert(s@.subrange(0, i + 1).drop_last() =~= s@.subrange(0, i as int));
        match read_item(&s[i], i) {
            Ok(x) => {
                let ghost before = out@;
                out.push(x);
                assert(items_view(out@) =~= items_view(before).push(x@));
            },
            Err(e) => {
                proof { lemma_items_error_sticks(s@, i as int); }
                return Err(e);
            },
        }
        i = i + 1;
    }
    assert(s@.subrange(0, s@.len() as int) =~= s@);
    Ok(out)
}

proof fn lemma_items_error_sticks(s: Seq<ScriptValue>, i: int)
    requires
        0 <= i < s.len(),
        items_of(s.subrange(0, i + 1)) is Err,
    ensures
        items_of(s) == items_of(s.subrange(0, i + 1)),
    decreases s.len() - i,
{
    if i + 1 < s.len() {
        assert(s.subrange(0, i + 2).drop_last() =~= s.subrange(0, i + 1));
        lemma_items_error_sticks(s, i + 1);
    } else {
        assert(s.subrange(0, i + 1) =~= s);
    }
}

proof fn lemma_options_error_sticks(s: Seq<ScriptValue>, i: int)
    requires
        0 <= i < s.len(),
        options_of(s.subrange(0, i + 1)) is Err,
    ensures
        options_of(s) == options_of(s.subrange(0, i + 1)),
    decreases s.len() - i,
{
    if i + 1 < s.len() {
        assert(s.subrange(0, i + 2).drop_last() =~= s.subrange(0, i + 1));
        lemma_options_error_sticks(s, i + 1);
    } else {
        assert(s.subrange(0, i + 1) =~= s);
    }
}

fn read_option(v: &ScriptValue) -> (r: Result<Option<ModOption>, Field>)
    ensures
        match (r, option_of(*v)) {
            (Ok(Some(x)), Ok(Some(y))) => x@ == y,
            (Ok(None), Ok(None)) => true,
            (Err(e), Err(f)) => e == f,
            _ => false,
        },
{
    let t = match v {
        ScriptValue::Table(t) => t,
        _ => return Err(Field::Entry),
    };
    let client = match get_field(t, "client") {
        Some(c) => is_truthy(c),
        None => false,
    };
    if client {
        return Ok(None);
    }
    let name = match get_field(t, "name") {
        Some(ScriptValue::Str(s)) => s.clone(),
        _ => return Err(Field::OptionName),
    };
    let description = text_field(t, "label");
    let default = match get_field(t, "default") {
        Some(d) => value2str(d),
        None => value2str(&ScriptValue::Nil),
    };
    let default = match default {
        Ok(d) => d,
        Err(_) => return Err(Field::Default),
    };
    let items = match get_field(t, "options") {
        Some(ScriptValue::Table(it)) => read_items(&it.items),
        _ => return Err(Field::Items),
    };
    match items {
        Ok(options) => Ok(Some(ModOption { name, options, description, default })),
        Err(e) => Err(e),
    }
}

impl Mod {
    /// The server-side configuration options of this add-on, read from the
    /// value of its descriptor's global `configuration_options`: entries
    /// marked `client` are left out, and none are declared where that global
    /// is not a table.
    pub fn read_options(config: &ScriptValue) -> (r: Result<Vec<ModOption>, DescriptorError>)
        ensures
            match (r, declared_options(*config)) {
                (Ok(x), Ok(y)) => options_view(x@) == y,
                (Err(e), Err(f)) => e == f,
                _ => false,
            },
    {
        let mut out: Vec<ModOption> = Vec::new();
        let s = match config {
            ScriptValue::Table(t) => &t.items,
            _ => {
                assert(options_view(out@) =~= Seq::<ModOptionView>::empty());
                return Ok(out);
            },
        };
        let mut i: usize = 0;
        assert(options_view(out@) =~= Seq::<ModOptionView>::empty());
        assert(s@.subrange(0, 0) =~= Seq::<ScriptValue>::empty());
        while i < s.len()
            invariant
                i <= s@.len(),
                declared_options(*config) == options_of(s@),
                options_of(s@.subrange(0, i as int)) == Ok::<Seq<ModOptionView>, DescriptorError>(options_view(out@)),
            decreases s.len() - i,
        {
            assert(s@.subrange(0, i + 1).drop_last() =~= s@.subrange(0, i as int));
            match read_option(&s[i]) {
                Ok(Some(x)) => {
                    let ghost before = out@;
                    out.push(x);
                    assert(options_view(out@) =~= options_view(before).push(x@));
                },
                Ok(None) => {},
                Err(field) => {
                    proof { lemma_options_error_sticks(s@, i as int); }
                    return Err(DescriptorError::Option { index: i, field });
                },
            }
            i = i + 1;
        }
        assert(s@.subrange(0, s@.len() as int) =~= s@);
        Ok(out)
    }

    /// The record of the add-on found at `path` with id `id`, from the values
    /// of its descriptor's globals `name` (a string) and `client_only_mod` (a
    /// boolean).
    pub fn read_identity(id: usize, path: String, name: &ScriptValue, client_only: &ScriptValue) -> (r: Result<Mod, DescriptorError>)
        ensures
            match (*name, *client_only) {
                (ScriptValue::Str(n), ScriptValue::Boolean(b)) => r == Ok::<Mod, DescriptorError>(
                    (Mod { name: n, id, path, client_only: b })),
                (ScriptValue::Str(_), _) => r == Err::<Mod, DescriptorError>(DescriptorError::Global(Field::ClientOnly)),
                _ => r == Err::<Mod, DescriptorError>(DescriptorError::Global(Field::Name)),
            },
    {
        let n = match name {
            ScriptValue::Str(n) => n.clone(),
            _ => return Err(DescriptorError::Global(Field::Name)),
        };
        match client_only {
            ScriptValue::Boolean(b) => Ok(Mod { name: n, id, path, client_only: *b }),
            _ => Err(DescriptorError::Global(Field::ClientOnly)),
        }
    }
}

} // verus!
