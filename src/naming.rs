//! How add-on folders are named under a storage root, and how an add-on id
//! is read back from a folder name.
use vstd::prelude::*;
use crate::script::{decimal, push_decimal, digit_char};

verus! {

/// The text after the last `-` of a name, or the whole name if it has none.
pub open spec fn after_last_dash(s: Seq<char>) -> Seq<char>
    decreases s.len(),
{
    if s.len() == 0 {
        s
    } else if s.last() == '-' {
        Seq::empty()
    } else {
        after_last_dash(s.drop_last()).push(s.last())
    }
}

pub open spec fn is_digit(c: char) -> bool {
    '0' <= c && c <= '9'
}

pub open spec fn all_digits(s: Seq<char>) -> bool {
    forall|i: int| 0 <= i < s.len() ==> is_digit(#[trigger] s[i])
}

/// The number that a run of decimal digits denotes.
pub open spec fn digits_value(s: Seq<char>) -> nat
    decreases s.len(),
{
    if s.len() == 0 {
        0
    } else {
        digits_value(s.drop_last()) * 10 + ((s.last() as nat) - ('0' as nat)) as nat
    }
}

/// The add-on id that a folder name encodes: its part after the last `-` (the
/// whole name where there is none), when that part is a non-empty run of
/// decimal digits whose value fits in `usize`.
pub open spec fn id_of_name(name: Seq<char>) -> Option<nat> {
    let d = after_last_dash(name);
    if d.len() > 0 && all_digits(d) && digits_value(d) <= usize::MAX {
        Some(digits_value(d))
    } else {
        None
    }
}

/// The kind of a storage root, which decides how its add-on folders are named.
#[derive(Clone, Copy, Debug, PartialEq, Eq, Structural)]
pub enum RootKind {
    /// The workshop content root: folders are named by the bare id.
    Workshop,
    /// Any other root: folders are named `workshop-<id>`.
    Named,
}

/// The folder name of add-on `id` under a root of the given kind.
pub open spec fn folder_name(kind: RootKind, id: nat) -> Seq<char> {
    match kind {
        RootKind::Workshop => decimal(id),
        RootKind::Named => "workshop-"@ + decimal(id),
    }
}

/// `rel` appended to `base` as a path, with one `/` between them.
pub open spec fn joined(base: Seq<char>, rel: Seq<char>) -> Seq<char> {
    if base.len() == 0 || base.last() == '/' {
        base + rel
    } else {
        base + seq!['/'] + rel
    }
}

/// Joins a relative path onto a base path.
pub fn join_path(base: &str, rel: &str) -> (r: String)
    ensures
        r@ == joined(base@, rel@),
{
    let mut out = String::from_str(base);
    let n = base.unicode_len();
    if n > 0 && base.get_char(n - 1) != '/' {
        proof { reveal_strlit("/"); }
        out.append("/");
    }
    out.append(rel);
    assert(out@ =~= joined(base@, rel@));
    out
}

proof fn lemma_after_last_dash_shape(s: Seq<char>)
    ensures
        after_last_dash(s).len() <= s.len(),
        after_last_dash(s) =~= s.subrange(s.len() - after_last_dash(s).len(), s.len() as int),
        !after_last_dash(s).contains('-'),
        after_last_dash(s).len() < s.len() ==> s[s.len() - after_last_dash(s).len() - 1] == '-',
    decreases s.len(),
{
    if s.len() > 0 && s.last() != '-' {
        lemma_after_last_dash_shape(s.drop_last());
        let d = after_last_dash(s.drop_last());
        assert forall|c: char| after_last_dash(s).contains(c) implies c != '-' by {
            let i = choose|i: int| 0 <= i < after_last_dash(s).len() && after_last_dash(s)[i] == c;
            if i < d.len() {
                assert(d[i] == c);
            }
        }
    }
}

/// Reads the add-on id out of a folder name; `None` where the name does not
/// end in a numeric part.
pub fn entry_id(name: &str) -> (r: Option<usize>)
    ensures
        match id_of_name(name@) {
            Some(v) => r == Some(v as usize),
            None => r is None,
        },
{
    let n = name.unicode_len();
    let mut start: usize = n;
    while start > 0 && name.get_char(start - 1) != '-'
        invariant
            n == name@.len(),
            start <= n,
            forall|j: int| start <= j < n ==> name@[j] != '-',
        decreases start,
    {
        start = start - 1;
    }
    let ghost d = name@.subrange(start as int, n as int);
    proof {
        lemma_after_last_dash_shape(name@);
        let a = after_last_dash(name@);
        // both `d` and `a` are the longest dash-free tail of the name
        if a.len() < d.len() {
            assert(name@[n - a.len() - 1] == '-');
            assert(d[d.len() - a.len() - 1] == name@[n - a.len() - 1]);
        } else if a.len() > d.len() {
            assert(name@[start - 1] == '-');
            assert(a[a.len() - d.len() - 1] == name@[start - 1]);
            assert(a.contains('-'));
        }
        assert(a =~= d);
    }
    if start == n {
        return None;
    }
    let mut value: usize = 0;
    let mut fits = true;
    let mut i: usize = start;
    while i < n
        invariant
            start <= i <= n,
            n == name@.len(),
            d == name@.subrange(start as int, n as int),
            after_last_dash(name@) == d,
            all_digits(d.subrange(0, i - start)),
            fits ==> value as nat == digits_value(d.subrange(0, i - start)),
            !fits ==> digits_value(d.subrange(0, i - start)) > usize::MAX,
        decreases n - i,
    {
        let c = name.get_char(i);
        if c < '0' || c > '9' {
            assert(d[i - start] == c);
            assert(!is_digit(d[i - start]));

            return None;
        }
        let dv = (c as u32 - '0' as u32) as usize;
        proof {
            assert(d.subrange(0, i + 1 - start).drop_last() =~= d.subrange(0, i - start));
            assert(d.subrange(0, i + 1 - start).last() == c);
        }
        if fits {
            if value > (usize::MAX - dv) / 10 {
                fits = false;
                assert(value * 10 + dv > usize::MAX) by (nonlinear_arith)
                    requires value > (usize::MAX - dv) / 10, dv <= 9;
            } else {
                assert(value * 10 + dv <= usize::MAX) by (nonlinear_arith)
                    requires value <= (usize::MAX - dv) / 10, dv <= 9;
                value = value * 10 + dv;
            }
        } else {
            let ghost p = digits_value(d.subrange(0, i - start));
            assert(p * 10 + dv as nat > usize::MAX) by (nonlinear_arith)
                requires p > usize::MAX;
        }
        i = i + 1;
    }
    assert(d.subrange(0, n - start) =~= d);
    if fits {
        Some(value)
    } else {
        None
    }
}

/// One storage root: a directory of installed add-on folders.
pub struct DataBase {
    pub path: String,
    pub kind: RootKind,
}

impl DataBase {
    /// The folder name of add-on `id` under this root.
    pub fn get_name(&self, id: usize) -> (r: String)
        ensures
            r@ == folder_name(self.kind, id as nat),
    {
        let mut out = String::new();
        if let RootKind::Named = self.kind {
            proof { reveal_strlit("workshop-"); }
            out.append("workshop-");
        }
        push_decimal(&mut out, id as u64);
        assert(out@ =~= folder_name(self.kind, id as nat));
        out
    }

    /// The folder of add-on `id` under this root: what `remove` deletes and
    /// what `insert` copies into.
    pub fn folder_of(&self, id: usize) -> (r: String)
        ensures
            r@ == joined(self.path@, folder_name(self.kind, id as nat)),
    {
        let name = self.get_name(id);
        join_path(self.path.as_str(), name.as_str())
    }
}

/// Reading back the folder name that `DataBase::get_name` gives an id, under
/// either kind of root, recovers that id.
pub proof fn lemma_name_round_trip(kind: RootKind, id: nat)
    requires
        id <= usize::MAX,
    ensures
        id_of_name(folder_name(kind, id)) == Some(id),
{
    lemma_decimal_digits(id);
    reveal_strlit("workshop-");
    reveal_strlit("workshop");
    match kind {
        RootKind::Workshop => {
            lemma_no_dash_tail(decimal(id));
        },
        RootKind::Named => {
            assert("workshop-"@ + decimal(id) =~= "workshop"@ + seq!['-'] + decimal(id));
            lemma_after_dash_of_tail("workshop"@, decimal(id));
        },
    }
}

/// A name made of any prefix, a `-` and a run of decimal digits is read back
/// as the number those digits denote, when it fits in `usize`.
pub proof fn lemma_suffix_id(prefix: Seq<char>, digits: Seq<char>)
    requires
        digits.len() > 0,
        all_digits(digits),
        digits_value(digits) <= usize::MAX,
    ensures
        id_of_name(prefix + seq!['-'] + digits) == Some(digits_value(digits)),
{
    lemma_after_dash_of_tail(prefix, digits);
}

/// A name whose part after the last `-` is empty or holds anything but a
/// decimal digit encodes no id.
pub proof fn lemma_non_numeric_suffix(name: Seq<char>)
    requires
        after_last_dash(name).len() == 0 || exists|i: int|
            0 <= i < after_last_dash(name).len() && !is_digit(#[trigger] after_last_dash(name)[i]),
    ensures
        id_of_name(name) is None,
{
}

proof fn lemma_no_dash_tail(s: Seq<char>)
    requires
        all_digits(s),
    ensures
        after_last_dash(s) == s,
    decreases s.len(),
{
    if s.len() > 0 {
        lemma_no_dash_tail(s.drop_last());
        assert(s.drop_last().push(s.last()) =~= s);
    }
}

proof fn lemma_after_dash_of_tail(prefix: Seq<char>, digits: Seq<char>)
    requires
        all_digits(digits),
    ensures
        after_last_dash(prefix + seq!['-'] + digits) == digits,
    decreases digits.len(),
{
    let s = prefix + seq!['-'] + digits;
    if digits.len() == 0 {
        assert(s.last() == '-');
    } else {
        assert(s.drop_last() =~= prefix + seq!['-'] + digits.drop_last());
        assert(is_digit(digits[digits.len() - 1]));
        lemma_after_dash_of_tail(prefix, digits.drop_last());
        assert(digits.drop_last().push(digits.last()) =~= digits);
    }
}

proof fn lemma_decimal_digits(n: nat)
    ensures
        decimal(n).len() > 0,
        all_digits(decimal(n)),
        digits_value(decimal(n)) == n,
    decreases n,
{
    if n >= 10 {
        lemma_decimal_digits(n / 10);
        let s = decimal(n);
        assert(s.drop_last() =~= decimal(n / 10));
        assert forall|i: int| 0 <= i < s.len() implies is_digit(#[trigger] s[i]) by {
            if i < s.len() - 1 {
                assert(s[i] == decimal(n / 10)[i]);
            }
        }
    }
    assert(digit_char(n % 10) as nat - '0' as nat == n % 10);
    if n < 10 {
        assert(decimal(n).drop_last() =~= Seq::<char>::empty());
        assert(digits_value(Seq::<char>::empty()) == 0);
        assert(decimal(n).last() == digit_char(n));
    } else {
        let s = decimal(n);
        assert(s.drop_last() =~= decimal(n / 10));
        assert(s.last() == digit_char(n % 10));
        assert(digits_value(s) == digits_value(decimal(n / 10)) * 10 + n % 10);
        assert((n / 10) * 10 + n % 10 == n);
    }
}

} // verus!
