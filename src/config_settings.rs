//! Settings for a PEP 517 build backend: a map from key to a string or a list
//! of strings, kept in the order the keys arrive.
use vstd::prelude::*;

use crate::project::{dashed, is_ascii_alnum};
use crate::text::{chars_of, push_char, push_str, string_of, trim, trimmed};

verus! {

/// The value of one setting.
#[derive(Debug, Clone)]
pub enum ConfigSettingValue {
    /// A single string.
    String(String),
    /// A list of strings.
    List(Vec<String>),
}

pub enum ValueView {
    Str(Seq<char>),
    List(Seq<Seq<char>>),
}

pub open spec fn strings_view(v: Seq<String>) -> Seq<Seq<char>> {
    v.map_values(|s: String| s@)
}

impl View for ConfigSettingValue {
    type V = ValueView;

    open spec fn view(&self) -> ValueView {
        match self {
            ConfigSettingValue::String(s) => ValueView::Str(s@),
            ConfigSettingValue::List(l) => ValueView::List(strings_view(l@)),
        }
    }
}

/// One `KEY=VALUE` setting.
#[derive(Debug, Clone)]
pub struct ConfigSettingEntry {
    /// The key of the setting. For example, given `key=value`, this would be `key`.
    pub key: String,
    /// The value of the setting. For example, given `key=value`, this would be `value`.
    pub value: String,
}

/// The position of the first `=`.
pub open spec fn first_eq(s: Seq<char>) -> Option<int>
    decreases s.len(),
{
    if s.len() == 0 {
        None
    } else if s[0] == '=' {
        Some(0)
    } else {
        match first_eq(s.drop_first()) {
            Some(i) => Some(i + 1),
            None => None,
        }
    }
}

impl ConfigSettingEntry {
    /// Reads `KEY=VALUE`, splitting at the first `=` and trimming both sides.
    pub fn from_str(s: &str) -> (r: Result<ConfigSettingEntry, String>)
        ensures
            r is Ok <==> first_eq(s@) is Some,
            r matches Ok(e) ==> e.key@ == trimmed(s@.subrange(0, first_eq(s@)->0))
                && e.value@ == trimmed(s@.subrange(first_eq(s@)->0 + 1, s@.len() as int)),
    {
        let chars = chars_of(s);
        let mut i: usize = 0;
        assert(s@.subrange(0, s@.len() as int) =~= s@);
        while i < chars.len() && chars[i] != '='
            invariant
                chars@ == s@,
                i <= chars@.len(),
                forall|j: int| 0 <= j < i ==> chars@[j] != '=',
                first_eq(s@) == match first_eq(s@.subrange(i as int, s@.len() as int)) {
                    Some(k) => Some(k + i),
                    None => None,
                },
            decreases chars@.len() - i,
        {
            let ghost rest = s@.subrange(i as int, s@.len() as int);
            assert(rest.drop_first() =~= s@.subrange(i + 1, s@.len() as int));
            i += 1;
        }
        assert(i < chars@.len() ==> s@.subrange(i as int, s@.len() as int)[0] == '=');
        if i == chars.len() {
            assert(s@.subrange(i as int, s@.len() as int).len() == 0);
            let mut message = String::new();
            push_str(&mut message, "Invalid config setting: ");
            push_str(&mut message, s);
            push_str(&mut message, " (expected `KEY=VALUE`)");
            return Err(message);
        }
        let mut key: Vec<char> = Vec::new();
        let mut j: usize = 0;
        while j < i
            invariant
                chars@ == s@,
                i < chars@.len(),
                j <= i,
                key@ == s@.subrange(0, j as int),
            decreases i - j,
        {
            key.push(chars[j]);
            j += 1;
            assert(key@ =~= s@.subrange(0, j as int));
        }
        let mut value: Vec<char> = Vec::new();
        let mut k: usize = i + 1;
        while k < chars.len()
            invariant
                chars@ == s@,
                i < chars@.len(),
                i + 1 <= k <= chars@.len(),
                value@ == s@.subrange(i + 1, k as int),
            decreases chars@.len() - k,
        {
            value.push(chars[k]);
            k += 1;
            assert(value@ =~= s@.subrange(i + 1, k as int));
        }
        let key_s = string_of(&key);
        let value_s = string_of(&value);
        let key_t = trim(key_s.as_str()).to_owned();
        let value_t = trim(value_s.as_str()).to_owned();
        Ok(ConfigSettingEntry { key: key_t, value: value_t })
    }

    pub fn new(key: String, value: String) -> (r: ConfigSettingEntry)
        ensures
            r.key@ == key@,
            r.value@ == value@,
    {
        ConfigSettingEntry { key, value }
    }
}

// ---------------------------------------------------------------------------
// Key order: lexicographic by character, as strings order by their bytes.

pub open spec fn key_lt(a: Seq<char>, b: Seq<char>) -> bool
    decreases a.len(),
{
    if b.len() == 0 {
        false
    } else if a.len() == 0 {
        true
    } else if a[0] != b[0] {
        a[0] < b[0]
    } else {
        key_lt(a.drop_first(), b.drop_first())
    }
}

pub proof fn lemma_key_lt_irreflexive(a: Seq<char>)
    ensures
        !key_lt(a, a),
    decreases a.len(),
{
    if a.len() > 0 {
        lemma_key_lt_irreflexive(a.drop_first());
    }
}

pub proof fn lemma_key_lt_transitive(a: Seq<char>, b: Seq<char>, c: Seq<char>)
    requires
        key_lt(a, b),
        key_lt(b, c),
    ensures
        key_lt(a, c),
    decreases a.len(),
{
    if a.len() > 0 && b.len() > 0 && c.len() > 0 && a[0] == b[0] && b[0] == c[0] {
        lemma_key_lt_transitive(a.drop_first(), b.drop_first(), c.drop_first());
    }
}

pub proof fn lemma_key_lt_total(a: Seq<char>, b: Seq<char>)
    requires
        a != b,
    ensures
        key_lt(a, b) || key_lt(b, a),
    decreases a.len(),
{
    if a.len() > 0 && b.len() > 0 {
        if a[0] == b[0] {
            assert(a.drop_first() != b.drop_first()) by {
                if a.drop_first() == b.drop_first() {
                    assert(a =~= seq![a[0]] + a.drop_first());
                    assert(b =~= seq![b[0]] + b.drop_first());
                }
            }
            lemma_key_lt_total(a.drop_first(), b.drop_first());
        }
    } else if a.len() == 0 && b.len() == 0 {
        assert(a =~= b);
    }
}

/// Compares two keys: negative, zero or positive as `a` sorts before, equal to
/// or after `b`.
fn compare_keys(a: &Vec<char>, b: &Vec<char>) -> (r: i8)
    ensures
        r < 0 <==> key_lt(a@, b@),
        r == 0 <==> a@ == b@,
        r > 0 <==> key_lt(b@, a@),
{
    let mut i: usize = 0;
    assert(a@.subrange(0, a@.len() as int) =~= a@);
    assert(b@.subrange(0, b@.len() as int) =~= b@);
    while i < a.len() && i < b.len()
        invariant
            i <= a@.len(),
            i <= b@.len(),
            a@.subrange(0, i as int) == b@.subrange(0, i as int),
            key_lt(a@, b@) == key_lt(
                a@.subrange(i as int, a@.len() as int),
                b@.subrange(i as int, b@.len() as int),
            ),
            key_lt(b@, a@) == key_lt(
                b@.subrange(i as int, b@.len() as int),
                a@.subrange(i as int, a@.len() as int),
            ),
        decreases a@.len() - i,
    {
        let ghost sa = a@.subrange(i as int, a@.len() as int);
        let ghost sb = b@.subrange(i as int, b@.len() as int);
        if a[i] != b[i] {
            assert(sa[0] == a@[i as int] && sb[0] == b@[i as int]);
            if a[i] < b[i] {
                assert(a@ != b@) by {
                    assert(a@[i as int] != b@[i as int]);
                }
                return -1;
            } else {
                assert(a@ != b@) by {
                    assert(a@[i as int] != b@[i as int]);
                }
                return 1;
            }
        }
        assert(sa.drop_first() =~= a@.subrange(i + 1, a@.len() as int));
        assert(sb.drop_first() =~= b@.subrange(i + 1, b@.len() as int));
        i += 1;
        assert(a@.subrange(0, i as int) =~= a@.subrange(0, i - 1).push(a@[i - 1]));
        assert(b@.subrange(0, i as int) =~= b@.subrange(0, i - 1).push(b@[i - 1]));
    }
    if a.len() == b.len() {
        assert(a@ =~= a@.subrange(0, i as int));
        assert(b@ =~= b@.subrange(0, i as int));
        proof {
            lemma_key_lt_irreflexive(a@);
        }
        0
    } else if a.len() < b.len() {
        assert(a@ != b@);
        assert(a@.subrange(i as int, a@.len() as int).len() == 0);
        -1
    } else {
        assert(a@ != b@);
        assert(b@.subrange(i as int, b@.len() as int).len() == 0);
        1
    }
}

// ---------------------------------------------------------------------------
// The association list, in the order the keys arrive.

pub type EntriesView = Seq<(Seq<char>, ValueView)>;

/// Each key appears once.
pub open spec fn distinct_keys(s: EntriesView) -> bool {
    forall|i: int, j: int| 0 <= i < j < s.len() ==> #[trigger] s[i].0 != #[trigger] s[j].0
}

/// Keys strictly increase along the list.
pub open spec fn sorted(s: EntriesView) -> bool {
    forall|i: int, j: int| 0 <= i < j < s.len() ==> key_lt(#[trigger] s[i].0, #[trigger] s[j].0)
}

pub open spec fn has_key(s: EntriesView, k: Seq<char>) -> bool {
    exists|i: int| 0 <= i < s.len() && #[trigger] s[i].0 == k
}

/// The value stored under a key.
pub open spec fn lookup(s: EntriesView, k: Seq<char>) -> Option<ValueView> {
    if has_key(s, k) {
        Some(s[choose|i: int| 0 <= i < s.len() && #[trigger] s[i].0 == k].1)
    } else {
        None
    }
}

pub open spec fn keys(s: EntriesView) -> Seq<Seq<char>> {
    s.map_values(|e: (Seq<char>, ValueView)| e.0)
}

proof fn lemma_lookup_at(s: EntriesView, idx: int)
    requires
        distinct_keys(s),
        0 <= idx < s.len(),
    ensures
        lookup(s, s[idx].0) == Some(s[idx].1),
{
    let k = s[idx].0;
    assert(has_key(s, k));
    assert forall|j: int| 0 <= j < s.len() && #[trigger] s[j].0 == k implies j == idx by {
        if j < idx {
            assert(s[j].0 != s[idx].0);
        } else if j > idx {
            assert(s[idx].0 != s[j].0);
        }
    }
}


// ---------------------------------------------------------------------------
// Key order for writing.

/// The index of the least key.
pub open spec fn min_index(s: EntriesView) -> int
    decreases s.len(),
{
    if s.len() <= 1 {
        0
    } else {
        let m = min_index(s.drop_last());
        if key_lt(s.last().0, s[m].0) {
            s.len() - 1
        } else {
            m
        }
    }
}

/// The entries ordered by key: the least first, then the rest in order.
pub open spec fn sort_entries(s: EntriesView) -> EntriesView
    decreases s.len(),
{
    let m = min_index(s);
    if s.len() == 0 || m < 0 || m >= s.len() {
        seq![]
    } else {
        seq![s[m]] + sort_entries(s.remove(m))
    }
}

proof fn lemma_min_index(s: EntriesView)
    requires
        s.len() > 0,
    ensures
        0 <= min_index(s) < s.len(),
        forall|j: int| 0 <= j < s.len() ==> !key_lt(#[trigger] s[j].0, s[min_index(s)].0),
    decreases s.len(),
{
    if s.len() > 1 {
        let init = s.drop_last();
        lemma_min_index(init);
        let m = min_index(init);
        assert(init[m] == s[m]);
        if key_lt(s.last().0, s[m].0) {
            assert forall|j: int| 0 <= j < s.len() implies !key_lt(#[trigger] s[j].0, s.last().0) by {
                if j < s.len() - 1 {
                    assert(init[j] == s[j]);
                    if key_lt(s[j].0, s.last().0) {
                        lemma_key_lt_transitive(s[j].0, s.last().0, s[m].0);
                    }
                } else {
                    lemma_key_lt_irreflexive(s.last().0);
                }
            }
        } else {
            assert forall|j: int| 0 <= j < s.len() implies !key_lt(#[trigger] s[j].0, s[m].0) by {
                if j < s.len() - 1 {
                    assert(init[j] == s[j]);
                }
            }
        }
    } else {
        lemma_key_lt_irreflexive(s[0].0);
    }
}

proof fn lemma_remove_entry(x: EntriesView, m: int)
    requires
        distinct_keys(x),
        0 <= m < x.len(),
    ensures
        distinct_keys(x.remove(m)),
        forall|k: Seq<char>|
            #![trigger has_key(x.remove(m), k)]
            has_key(x.remove(m), k) == (has_key(x, k) && k != x[m].0),
        forall|k: Seq<char>|
            #![trigger lookup(x.remove(m), k)]
            k != x[m].0 ==> lookup(x.remove(m), k) == lookup(x, k),
{
    let y = x.remove(m);
    assert forall|i: int| 0 <= i < y.len() implies #[trigger] y[i] == (if i < m {
        x[i]
    } else {
        x[i + 1]
    }) by {}
    assert forall|i: int, j: int| 0 <= i < j < y.len() implies #[trigger] y[i].0 != #[trigger] y[j].0 by {
        let a = if i < m { i } else { i + 1 };
        let b = if j < m { j } else { j + 1 };
        assert(y[i] == x[a] && y[j] == x[b]);
        assert(x[a].0 != x[b].0);
    }
    assert forall|k: Seq<char>| #![trigger has_key(y, k)] has_key(y, k) == (has_key(x, k) && k != x[m].0) by {
        if has_key(y, k) {
            let i = choose|i: int| 0 <= i < y.len() && #[trigger] y[i].0 == k;
            let a = if i < m { i } else { i + 1 };
            assert(x[a].0 == k);
            assert(a != m);
            assert(x[a].0 != x[m].0) by {
                if a < m {
                } else {
                }
            }
        }
        if has_key(x, k) && k != x[m].0 {
            let a = choose|a: int| 0 <= a < x.len() && #[trigger] x[a].0 == k;
            let i = if a < m { a } else { a - 1 };
            assert(a != m);
            assert(y[i].0 == k);
        }
    }
    assert forall|k: Seq<char>| #![trigger lookup(y, k)] k != x[m].0 implies lookup(y, k) == lookup(x, k) by {
        assert(has_key(y, k) == has_key(x, k));
        if has_key(x, k) {
            let a = choose|a: int| 0 <= a < x.len() && #[trigger] x[a].0 == k;
            let i = if a < m { a } else { a - 1 };
            assert(y[i] == x[a]);
            lemma_lookup_at(x, a);
            lemma_lookup_at(y, i);
        }
    }
}

proof fn lemma_prepend_entry(e: (Seq<char>, ValueView), y: EntriesView)
    requires
        distinct_keys(y),
        !has_key(y, e.0),
    ensures
        distinct_keys(seq![e] + y),
        forall|k: Seq<char>|
            #![trigger has_key(seq![e] + y, k)]
            has_key(seq![e] + y, k) == (k == e.0 || has_key(y, k)),
        forall|k: Seq<char>|
            #![trigger lookup(seq![e] + y, k)]
            lookup(seq![e] + y, k) == if k == e.0 {
                Some(e.1)
            } else {
                lookup(y, k)
            },
{
    let z = seq![e] + y;
    assert forall|i: int| 0 < i < z.len() implies #[trigger] z[i] == y[i - 1] by {}
    assert forall|i: int, j: int| 0 <= i < j < z.len() implies #[trigger] z[i].0 != #[trigger] z[j].0 by {
        if i == 0 {
            assert(z[j] == y[j - 1]);
        } else {
            assert(z[i] == y[i - 1] && z[j] == y[j - 1]);
        }
    }
    assert forall|k: Seq<char>| #![trigger has_key(z, k)] has_key(z, k) == (k == e.0 || has_key(y, k)) by {
        if has_key(z, k) {
            let i = choose|i: int| 0 <= i < z.len() && #[trigger] z[i].0 == k;
            if i > 0 {
                assert(y[i - 1].0 == k);
            }
        }
        if k == e.0 {
            assert(z[0].0 == k);
        }
        if has_key(y, k) {
            let i = choose|i: int| 0 <= i < y.len() && #[trigger] y[i].0 == k;
            assert(z[i + 1].0 == k);
        }
    }
    assert forall|k: Seq<char>| #![trigger lookup(z, k)] lookup(z, k) == if k == e.0 {
        Some(e.1)
    } else {
        lookup(y, k)
    } by {
        if k == e.0 {
            lemma_lookup_at(z, 0);
        } else if has_key(y, k) {
            let i = choose|i: int| 0 <= i < y.len() && #[trigger] y[i].0 == k;
            lemma_lookup_at(y, i);
            assert(z[i + 1] == y[i]);
            lemma_lookup_at(z, i + 1);
        }
    }
}

/// Ordering entries by key keeps each key with its value and puts the keys
/// in increasing order.
pub proof fn lemma_sort_entries(x: EntriesView)
    requires
        distinct_keys(x),
    ensures
        distinct_keys(sort_entries(x)),
        sorted(sort_entries(x)),
        forall|k: Seq<char>| #[trigger] has_key(sort_entries(x), k) == has_key(x, k),
        forall|k: Seq<char>| #[trigger] lookup(sort_entries(x), k) == lookup(x, k),
    decreases x.len(),
{
    if x.len() == 0 {
        assert(sort_entries(x) =~= Seq::<(Seq<char>, ValueView)>::empty());
        assert forall|k: Seq<char>| #[trigger] has_key(sort_entries(x), k) == has_key(x, k) by {}
    } else {
        lemma_min_index(x);
        let m = min_index(x);
        let rest = x.remove(m);
        lemma_remove_entry(x, m);
        lemma_sort_entries(rest);
        let y = sort_entries(rest);
        let e = x[m];
        assert(sort_entries(x) == seq![e] + y);
        assert(!has_key(y, e.0)) by {
            assert(has_key(y, e.0) == has_key(rest, e.0));
        }
        lemma_prepend_entry(e, y);
        assert(sorted(seq![e] + y)) by {
            let z = seq![e] + y;
            assert forall|i: int, j: int| 0 <= i < j < z.len() implies key_lt(#[trigger] z[i].0, #[trigger] z[j].0) by {
                assert(z[j] == y[j - 1]);
                if i == 0 {
                    let kj = y[j - 1].0;
                    assert(has_key(y, kj));
                    assert(has_key(rest, kj));
                    assert(has_key(x, kj) && kj != e.0);
                    let a = choose|a: int| 0 <= a < x.len() && #[trigger] x[a].0 == kj;
                    assert(!key_lt(x[a].0, e.0));
                    lemma_key_lt_total(e.0, kj);
                } else {
                    assert(z[i] == y[i - 1]);
                }
            }
        }
        assert forall|k: Seq<char>| #[trigger] has_key(sort_entries(x), k) == has_key(x, k) by {
            assert(has_key(y, k) == has_key(rest, k));
            if k == e.0 {
                assert(x[m].0 == k);
            }
        }
        assert forall|k: Seq<char>| #[trigger] lookup(sort_entries(x), k) == lookup(x, k) by {
            if k == e.0 {
                lemma_lookup_at(x, m);
            } else {
                assert(lookup(y, k) == lookup(rest, k));
            }
        }
    }
}

/// Adding a value to one that a key already has: a string becomes a list of
/// two, a list grows at its end.
pub open spec fn collect_value(prev: Option<ValueView>, v: Seq<char>) -> ValueView {
    match prev {
        None => ValueView::Str(v),
        Some(ValueView::Str(s)) => ValueView::List(seq![s, v]),
        Some(ValueView::List(l)) => ValueView::List(l.push(v)),
    }
}

/// The value a key has once the entries are collected in order.
pub open spec fn collected(entries: Seq<(Seq<char>, Seq<char>)>, k: Seq<char>) -> Option<ValueView>
    decreases entries.len(),
{
    if entries.len() == 0 {
        None
    } else {
        let prev = collected(entries.drop_last(), k);
        if entries.last().0 == k {
            Some(collect_value(prev, entries.last().1))
        } else {
            prev
        }
    }
}

pub open spec fn entries_view(v: Seq<ConfigSettingEntry>) -> Seq<(Seq<char>, Seq<char>)> {
    v.map_values(|e: ConfigSettingEntry| (e.key@, e.value@))
}

/// Merging a value of the right-hand settings into the left-hand one: the
/// left-hand values come first.
pub open spec fn merge_values(left: Option<ValueView>, right: Option<ValueView>) -> Option<
    ValueView,
> {
    match (left, right) {
        (None, r) => r,
        (l, None) => l,
        (Some(ValueView::Str(a)), Some(ValueView::Str(b))) => Some(ValueView::List(seq![a, b])),
        (Some(ValueView::Str(a)), Some(ValueView::List(l))) => Some(
            ValueView::List(seq![a] + l),
        ),
        (Some(ValueView::List(l)), Some(ValueView::Str(b))) => Some(ValueView::List(l.push(b))),
        (Some(ValueView::List(l)), Some(ValueView::List(m))) => Some(ValueView::List(l + m)),
    }
}

/// The keys of `right`, in order, that `left` lacks.
pub open spec fn new_keys(right: EntriesView, left: EntriesView) -> Seq<Seq<char>> {
    keys(right).filter(|k: Seq<char>| !has_key(left, k))
}

/// Settings to pass to a PEP 517 build backend, as a map from key to a string
/// or a list of strings, in the order the keys arrive; written out by key.
#[derive(Debug, Clone)]
pub struct ConfigSettings {
    entries: Vec<(String, ConfigSettingValue)>,
}

impl View for ConfigSettings {
    type V = EntriesView;

    closed spec fn view(&self) -> EntriesView {
        self.entries@.map_values(|e: (String, ConfigSettingValue)| (e.0@, e.1@))
    }
}

fn copy_value(v: &ConfigSettingValue) -> (r: ConfigSettingValue)
    ensures
        r@ == v@,
{
    match v {
        ConfigSettingValue::String(s) => ConfigSettingValue::String(s.clone()),
        ConfigSettingValue::List(l) => {
            let mut out: Vec<String> = Vec::new();
            let mut i: usize = 0;
            while i < l.len()
                invariant
                    i <= l@.len(),
                    out@.len() == i,
                    forall|j: int| 0 <= j < i ==> #[trigger] out@[j]@ == l@[j]@,
                decreases l@.len() - i,
            {
                let x = l[i].clone();
                out.push(x);
                i += 1;
            }
            assert(strings_view(out@) =~= strings_view(l@));
            ConfigSettingValue::List(out)
        },
    }
}

fn combine_values(left: ConfigSettingValue, right: ConfigSettingValue) -> (r: ConfigSettingValue)
    ensures
        Some(r@) == merge_values(Some(left@), Some(right@)),
{
    match left {
        ConfigSettingValue::String(a) => match right {
            ConfigSettingValue::String(b) => {
                let ghost (va, vb) = (a@, b@);
                let v = vec![a, b];
                assert(strings_view(v@) =~= seq![va, vb]);
                ConfigSettingValue::List(v)
            },
            ConfigSettingValue::List(mut l) => {
                let ghost vl = strings_view(l@);
                let ghost va = a@;
                l.insert(0, a);
                assert(strings_view(l@) =~= seq![va] + vl);
                ConfigSettingValue::List(l)
            },
        },
        ConfigSettingValue::List(mut l) => match right {
            ConfigSettingValue::String(b) => {
                let ghost vl = strings_view(l@);
                let ghost vb = b@;
                l.push(b);
                assert(strings_view(l@) =~= vl.push(vb));
                ConfigSettingValue::List(l)
            },
            ConfigSettingValue::List(m) => {
                let ghost vl = strings_view(l@);
                let ghost vm = strings_view(m@);
                let mut i: usize = 0;
                while i < m.len()
                    invariant
                        i <= m@.len(),
                        vm == strings_view(m@),
                        l@.len() == vl.len() + i,
                        forall|j: int| 0 <= j < vl.len() ==> #[trigger] l@[j]@ == vl[j],
                        forall|j: int| 0 <= j < i ==> #[trigger] l@[vl.len() + j]@ == m@[j]@,
                    decreases m@.len() - i,
                {
                    let x = m[i].clone();
                    l.push(x);
                    i += 1;
                    assert(l@[vl.len() + i - 1]@ == m@[i - 1]@);
                }
                assert(strings_view(l@) =~= vl + vm) by {
                    assert forall|j: int| 0 <= j < l@.len() implies strings_view(l@)[j] == (vl
                        + vm)[j] by {
                        if j >= vl.len() {
                            assert(l@[vl.len() + (j - vl.len())]@ == m@[j - vl.len()]@);
                        }
                    }
                }
                ConfigSettingValue::List(l)
            },
        },
    }
}

impl ConfigSettings {
    pub open spec fn wf(&self) -> bool {
        distinct_keys(self@)
    }

    /// Settings with no key.
    pub fn new() -> (r: ConfigSettings)
        ensures
            r.wf(),
            r@.len() == 0,
    {
        let r = ConfigSettings { entries: Vec::new() };
        assert(r@ =~= Seq::<(Seq<char>, ValueView)>::empty());
        r
    }

    /// Returns the number of settings in the configuration.
    pub fn len(&self) -> (r: usize)
        ensures
            r == self@.len(),
    {
        self.entries.len()
    }

    /// Returns `true` if the configuration contains no settings.
    pub fn is_empty(&self) -> (r: bool)
        ensures
            r == (self@.len() == 0),
    {
        self.entries.len() == 0
    }

    /// The index of `key`, where the settings have it.
    fn find(&self, key: &String) -> (r: Option<usize>)
        requires
            self.wf(),
        ensures
            r is Some <==> has_key(self@, key@),
            r matches Some(i) ==> i < self@.len() && self@[i as int].0 == key@,
    {
        let mut i: usize = 0;
        while i < self.entries.len()
            invariant
                i <= self@.len(),
                forall|j: int| 0 <= j < i ==> #[trigger] self@[j].0 != key@,
            decreases self@.len() - i,
        {
            if self.entries[i].0.eq(key) {
                assert(self@[i as int].0 == self.entries@[i as int].0@);
                return Some(i);
            }
            i += 1;
        }
        None
    }

    /// Stores `value` under `key`: a new key gets it as it is, at the end; a
    /// present one keeps its place and gets it merged after its value where
    /// `merge` holds, and replacing it otherwise.
    #[verifier::rlimit(40)]
    #[verifier::spinoff_prover]
    fn put(&mut self, key: String, value: ConfigSettingValue, merge: bool)
        requires
            old(self).wf(),
        ensures
            final(self).wf(),
            forall|k: Seq<char>|
                #![trigger lookup(final(self)@, k)]
                k != key@ ==> lookup(final(self)@, k) == lookup(old(self)@, k),
            lookup(final(self)@, key@) == if merge {
                merge_values(lookup(old(self)@, key@), Some(value@))
            } else {
                Some(value@)
            },
            has_key(old(self)@, key@) ==> keys(final(self)@) == keys(old(self)@),
            !has_key(old(self)@, key@) ==> keys(final(self)@) == keys(old(self)@).push(key@),
    {
        let ghost s0 = self@;
        match self.find(&key) {
            Some(pos) => {
                let old_value = copy_value(&self.entries[pos].1);
                let v = if merge {
                    combine_values(old_value, value)
                } else {
                    value
                };
                self.entries.set(pos, (key, v));
                proof {
                    lemma_lookup_at(s0, pos as int);
                    assert(self@ =~= s0.update(pos as int, (key@, v@)));
                    assert(distinct_keys(self@)) by {
                        assert forall|i: int, j: int| 0 <= i < j < self@.len() implies #[trigger] self@[i].0
                            != #[trigger] self@[j].0 by {
                            assert(self@[i].0 == s0[i].0);
                            assert(self@[j].0 == s0[j].0);
                        }
                    }
                    lemma_lookup_at(self@, pos as int);
                    assert forall|k: Seq<char>| #![trigger lookup(self@, k)] k != key@ implies lookup(
                        self@,
                        k,
                    ) == lookup(s0, k) by {
                        assert(has_key(self@, k) == has_key(s0, k)) by {
                            if has_key(self@, k) {
                                let i = choose|i: int| 0 <= i < self@.len() && #[trigger] self@[i].0 == k;
                                assert(s0[i].0 == k);
                            }
                            if has_key(s0, k) {
                                let i = choose|i: int| 0 <= i < s0.len() && #[trigger] s0[i].0 == k;
                                assert(self@[i].0 == k);
                            }
                        }
                        if has_key(s0, k) {
                            let i = choose|i: int| 0 <= i < s0.len() && #[trigger] s0[i].0 == k;
                            lemma_lookup_at(s0, i);
                            lemma_lookup_at(self@, i);
                        }
                    }
                    assert(keys(self@) =~= keys(s0));
                }
            },
            None => {
                let ghost vv = value@;
                let ghost kv = key@;
                self.entries.push((key, value));
                proof {
                    let n = s0.len();
                    assert(self@ =~= s0.push((kv, vv)));
                    assert(forall|i: int| 0 <= i < s0.len() ==> #[trigger] s0[i].0 != kv);
                    assert(distinct_keys(self@)) by {
                        assert forall|i: int, j: int| 0 <= i < j < self@.len() implies #[trigger] self@[i].0
                            != #[trigger] self@[j].0 by {
                            assert(self@[i].0 == s0[i].0);
                            if j < n {
                                assert(self@[j].0 == s0[j].0);
                            }
                        }
                    }
                    lemma_lookup_at(self@, n as int);
                    assert forall|k: Seq<char>| #![trigger lookup(self@, k)] k != kv implies lookup(
                        self@,
                        k,
                    ) == lookup(s0, k) by {
                        assert(has_key(self@, k) == has_key(s0, k)) by {
                            if has_key(self@, k) {
                                let i = choose|i: int| 0 <= i < self@.len() && #[trigger] self@[i].0 == k;
                                assert(i < n);
                                assert(s0[i].0 == k);
                            }
                            if has_key(s0, k) {
                                let i = choose|i: int| 0 <= i < s0.len() && #[trigger] s0[i].0 == k;
                                assert(self@[i].0 == k);
                            }
                        }
                        if has_key(s0, k) {
                            let i = choose|i: int| 0 <= i < s0.len() && #[trigger] s0[i].0 == k;
                            lemma_lookup_at(s0, i);
                            lemma_lookup_at(self@, i);
                        }
                    }
                    assert(keys(self@) =~= keys(s0).push(kv));
                }
            },
        }
    }

    /// Collects `KEY=VALUE` entries: the first value of a key is kept as a
    /// string, later ones turn it into a list in the order they come.
    pub fn from_entries(entries: Vec<ConfigSettingEntry>) -> (r: ConfigSettings)
        ensures
            r.wf(),
            forall|k: Seq<char>| #[trigger] lookup(r@, k) == collected(entries_view(entries@), k),
    {
        let mut r = ConfigSettings::new();
        let ghost ev = entries_view(entries@);
        let mut i: usize = 0;
        while i < entries.len()
            invariant
                i <= entries@.len(),
                ev == entries_view(entries@),
                r.wf(),
                forall|k: Seq<char>|
                    #[trigger] lookup(r@, k) == collected(ev.subrange(0, i as int), k),
            decreases entries@.len() - i,
        {
            let e = &entries[i];
            let ghost before = r@;
            r.put(e.key.clone(), ConfigSettingValue::String(e.value.clone()), true);
            i += 1;
            proof {
                let sub = ev.subrange(0, i as int);
                assert(sub.drop_last() =~= ev.subrange(0, i - 1));
                assert(sub.last() == ev[i - 1]);
                assert forall|k: Seq<char>| #[trigger] lookup(r@, k) == collected(sub, k) by {
                    if k == e.key@ {
                        match lookup(before, k) {
                            Some(ValueView::Str(s)) => {},
                            Some(ValueView::List(l)) => {},
                            None => {},
                        }
                    }
                }
            }
        }
        assert(ev.subrange(0, entries@.len() as int) =~= ev);
        r
    }

    /// The keys, in the order they are kept.
    pub fn key_names(&self) -> (r: Vec<String>)
        ensures
            r@.map_values(|k: String| k@) == keys(self@),
    {
        let mut out: Vec<String> = Vec::new();
        let mut i: usize = 0;
        while i < self.entries.len()
            invariant
                i <= self@.len(),
                out@.len() == i,
                forall|j: int| 0 <= j < i ==> #[trigger] out@[j]@ == self@[j].0,
            decreases self@.len() - i,
        {
            out.push(self.entries[i].0.clone());
            i += 1;
        }
        assert(out@.map_values(|k: String| k@) =~= keys(self@));
        out
    }

    /// Stores `value` under `key`, replacing any value it had.
    pub fn insert(&mut self, key: String, value: ConfigSettingValue)
        requires
            old(self).wf(),
        ensures
            final(self).wf(),
            lookup(final(self)@, key@) == Some(value@),
            forall|k: Seq<char>|
                #![trigger lookup(final(self)@, k)]
                k != key@ ==> lookup(final(self)@, k) == lookup(old(self)@, k),
    {
        self.put(key, value, false);
    }

    /// The value stored under `key`.
    pub fn get(&self, key: &str) -> (r: Option<&ConfigSettingValue>)
        requires
            self.wf(),
        ensures
            r matches Some(v) ==> lookup(self@, key@) == Some(v@),
            r is None ==> lookup(self@, key@) is None,
    {
        let k = key.to_owned();
        match self.find(&k) {
            Some(pos) => {
                proof {
                    lemma_lookup_at(self@, pos as int);
                }
                Some(&self.entries[pos].1)
            },
            None => None,
        }
    }

    /// Merges two sets of settings; where both have a key, the values of
    /// `self` come first. The keys of `self` keep their order, and the keys
    /// that only `other` has follow in their order.
    #[verifier::rlimit(40)]
    #[verifier::spinoff_prover]
    pub fn merge(self, other: ConfigSettings) -> (r: ConfigSettings)
        requires
            self.wf(),
            other.wf(),
        ensures
            r.wf(),
            forall|k: Seq<char>|
                #[trigger] lookup(r@, k) == merge_values(lookup(self@, k), lookup(other@, k)),
            keys(r@) == keys(self@) + new_keys(other@, self@),
    {
        let ghost left = self@;
        let ghost right = other@;
        let mut r = self;
        let mut i: usize = 0;
        assert(keys(left) + new_keys(right.subrange(0, 0), left) =~= keys(left)) by {
            assert(keys(right.subrange(0, 0)) =~= Seq::<Seq<char>>::empty());
            reveal_with_fuel(Seq::filter, 1);
        }
        while i < other.entries.len()
            invariant
                i <= other@.len(),
                right == other@,
                other.wf(),
                r.wf(),
                forall|k: Seq<char>|
                    #[trigger] lookup(r@, k) == if has_key(right.subrange(0, i as int), k) {
                        merge_values(lookup(left, k), lookup(right, k))
                    } else {
                        lookup(left, k)
                    },
                keys(r@) == keys(left) + new_keys(right.subrange(0, i as int), left),
            decreases other@.len() - i,
        {
            let key = other.entries[i].0.clone();
            let value = copy_value(&other.entries[i].1);
            let ghost before = r@;
            let ghost kv = key@;
            r.put(key, value, true);
            i += 1;
            proof {
                let sub = right.subrange(0, i as int);
                let prev = right.subrange(0, i - 1);
                assert(sub =~= prev.push(right[i - 1]));
                lemma_lookup_at(right, i - 1);
                assert(!has_key(prev, kv)) by {
                    if has_key(prev, kv) {
                        let j = choose|j: int| 0 <= j < prev.len() && #[trigger] prev[j].0 == kv;
                        assert(right[j].0 == right[i - 1].0);
                    }
                }
                assert forall|k: Seq<char>| #[trigger]
                    lookup(r@, k) == if has_key(sub, k) {
                        merge_values(lookup(left, k), lookup(right, k))
                    } else {
                        lookup(left, k)
                    } by {
                    assert(has_key(sub, k) == (has_key(prev, k) || k == kv)) by {
                        if has_key(sub, k) {
                            let j = choose|j: int| 0 <= j < sub.len() && #[trigger] sub[j].0 == k;
                            if j < prev.len() {
                                assert(prev[j].0 == k);
                            }
                        }
                        if has_key(prev, k) {
                            let j = choose|j: int| 0 <= j < prev.len() && #[trigger] prev[j].0 == k;
                            assert(sub[j].0 == k);
                        }
                        if k == kv {
                            assert(sub[i - 1].0 == k);
                        }
                    }
                }
                assert(lookup(before, kv) == lookup(left, kv));
                assert(has_key(before, kv) == has_key(left, kv));
                assert(keys(sub) =~= keys(prev).push(kv));
                let f = |k: Seq<char>| !has_key(left, k);
                assert(new_keys(sub, left) == new_keys(prev, left) + if has_key(left, kv) {
                    Seq::<Seq<char>>::empty()
                } else {
                    seq![kv]
                }) by {
                    assert(keys(prev).push(kv) =~= keys(prev) + seq![kv]);
                    Seq::filter_distributes_over_add(keys(prev), seq![kv], f);
                    assert(seq![kv].filter(f) =~= if has_key(left, kv) {
                        Seq::<Seq<char>>::empty()
                    } else {
                        seq![kv]
                    }) by {
                        reveal_with_fuel(Seq::filter, 2);
                        assert(seq![kv].drop_last() =~= Seq::<Seq<char>>::empty());
                    }
                }
                if has_key(left, kv) {
                    assert(keys(left) + new_keys(sub, left) =~= keys(left) + new_keys(prev, left));
                } else {
                    assert(keys(left) + new_keys(sub, left) =~= (keys(left) + new_keys(prev, left)).push(kv));
                }
            }
        }
        proof {
            assert(right.subrange(0, right.len() as int) =~= right);
            assert forall|k: Seq<char>| #[trigger]
                lookup(r@, k) == merge_values(lookup(left, k), lookup(right, k)) by {
                if !has_key(right, k) {
                    match lookup(left, k) {
                        Some(_) => {},
                        None => {},
                    }
                }
            }
        }
        r
    }
}


// ---------------------------------------------------------------------------
// JSON rendering.

pub open spec fn hex_digits() -> Seq<char> {
    seq!['0', '1', '2', '3', '4', '5', '6', '7', '8', '9', 'a', 'b', 'c', 'd', 'e', 'f']
}

/// How a JSON string literal writes one character: quote, backslash and the
/// control characters are escaped, everything else stands for itself.
pub open spec fn json_escape_char(c: char) -> Seq<char> {
    if c == '"' {
        seq!['\\', '"']
    } else if c == '\\' {
        seq!['\\', '\\']
    } else if c == '\u{8}' {
        seq!['\\', 'b']
    } else if c == '\t' {
        seq!['\\', 't']
    } else if c == '\n' {
        seq!['\\', 'n']
    } else if c == '\u{c}' {
        seq!['\\', 'f']
    } else if c == '\r' {
        seq!['\\', 'r']
    } else if (c as int) < 0x20 {
        seq![
            '\\',
            'u',
            '0',
            '0',
            if (c as int) < 0x10 {
                '0'
            } else {
                '1'
            },
            hex_digits()[(c as int) % 16],
        ]
    } else {
        seq![c]
    }
}

pub open spec fn json_escape(s: Seq<char>) -> Seq<char>
    decreases s.len(),
{
    if s.len() == 0 {
        seq![]
    } else {
        json_escape_char(s[0]) + json_escape(s.drop_first())
    }
}

/// A JSON string literal holding `s`.
pub open spec fn json_quoted(s: Seq<char>) -> Seq<char> {
    seq!['"'] + json_escape(s) + seq!['"']
}

/// Relies on `serde_json::to_string` applied to a string slice: it writes the
/// JSON string literal for it, and cannot fail on one.
#[verifier::external_body]
fn json_string(s: &str) -> (r: String)
    ensures
        r@ == json_quoted(s@),
{
    serde_json::to_string(s).unwrap_or_default()
}

/// Items joined with commas.
pub open spec fn comma_joined(items: Seq<Seq<char>>) -> Seq<char>
    decreases items.len(),
{
    if items.len() == 0 {
        seq![]
    } else if items.len() == 1 {
        items[0]
    } else {
        comma_joined(items.drop_last()) + seq![','] + items.last()
    }
}

pub open spec fn value_json(v: ValueView) -> Seq<char> {
    match v {
        ValueView::Str(s) => json_quoted(s),
        ValueView::List(l) => seq!['['] + comma_joined(l.map_values(|x: Seq<char>| json_quoted(x)))
            + seq![']'],
    }
}

pub open spec fn entry_json(e: (Seq<char>, ValueView)) -> Seq<char> {
    json_quoted(e.0) + seq![':'] + value_json(e.1)
}

/// The compact JSON object holding the entries in the order given.
pub open spec fn object_json(s: EntriesView) -> Seq<char> {
    seq!['{'] + comma_joined(s.map_values(|e: (Seq<char>, ValueView)| entry_json(e))) + seq!['}']
}

/// The compact JSON object holding the settings, keys in increasing order.
pub open spec fn settings_json(s: EntriesView) -> Seq<char> {
    object_json(sort_entries(s))
}

fn value_to_json(out: &mut String, v: &ConfigSettingValue)
    ensures
        final(out)@ == old(out)@ + value_json(v@),
{
    match v {
        ConfigSettingValue::String(s) => {
            let q = json_string(s.as_str());
            push_str(out, q.as_str());
        },
        ConfigSettingValue::List(l) => {
            let ghost start = out@;
            let ghost items = strings_view(l@).map_values(|x: Seq<char>| json_quoted(x));
            push_char(out, '[');
            let mut i: usize = 0;
            while i < l.len()
                invariant
                    i <= l@.len(),
                    items == strings_view(l@).map_values(|x: Seq<char>| json_quoted(x)),
                    out@ == start + seq!['['] + comma_joined(items.subrange(0, i as int)),
                decreases l@.len() - i,
            {
                let ghost sub = items.subrange(0, i + 1);
                assert(sub.drop_last() =~= items.subrange(0, i as int));
                assert(sub.last() == json_quoted(l@[i as int]@));
                if i > 0 {
                    push_char(out, ',');
                } else {
                    assert(items.subrange(0, 0) =~= Seq::<Seq<char>>::empty());
                }
                let q = json_string(l[i].as_str());
                push_str(out, q.as_str());
                i += 1;
                assert(out@ =~= start + seq!['['] + comma_joined(items.subrange(0, i as int)));
            }
            assert(items.subrange(0, l@.len() as int) =~= items);
            push_char(out, ']');
            assert(out@ =~= start + value_json(v@));
        },
    }
}

fn min_index_exec(v: &Vec<(String, ConfigSettingValue)>) -> (r: usize)
    requires
        v@.len() > 0,
    ensures
        r as int == min_index(pairs_view(v@)),
{
    let ghost pv = pairs_view(v@);
    let mut m: usize = 0;
    let mut i: usize = 1;
    assert(pv.subrange(0, 1).len() == 1);
    while i < v.len()
        invariant
            1 <= i <= v@.len(),
            pv == pairs_view(v@),
            m < i,
            m as int == min_index(pv.subrange(0, i as int)),
        decreases v@.len() - i,
    {
        let ghost sub = pv.subrange(0, i + 1);
        assert(sub.drop_last() =~= pv.subrange(0, i as int));
        assert(sub.last() == pv[i as int]);
        assert(sub[m as int] == pv[m as int]);
        let a = chars_of(v[i].0.as_str());
        let b = chars_of(v[m].0.as_str());
        if compare_keys(&a, &b) < 0 {
            m = i;
        }
        i += 1;
    }
    assert(pv.subrange(0, v@.len() as int) =~= pv);
    m
}

/// The compact JSON object holding the entries in the order given.
fn object_to_json(entries: &Vec<(String, ConfigSettingValue)>) -> (r: String)
    ensures
        r@ == object_json(pairs_view(entries@)),
{
    let ghost pv = pairs_view(entries@);
    let ghost items = pv.map_values(|e: (Seq<char>, ValueView)| entry_json(e));
    let mut out = String::new();
    push_char(&mut out, '{');
    let mut i: usize = 0;
    while i < entries.len()
        invariant
            i <= entries@.len(),
            pv == pairs_view(entries@),
            items == pv.map_values(|e: (Seq<char>, ValueView)| entry_json(e)),
            out@ == seq!['{'] + comma_joined(items.subrange(0, i as int)),
        decreases entries@.len() - i,
    {
        let ghost sub = items.subrange(0, i + 1);
        assert(sub.drop_last() =~= items.subrange(0, i as int));
        assert(sub.last() == entry_json(pv[i as int]));
        if i > 0 {
            push_char(&mut out, ',');
        } else {
            assert(items.subrange(0, 0) =~= Seq::<Seq<char>>::empty());
        }
        let ghost mid = out@;
        let q = json_string(entries[i].0.as_str());
        push_str(&mut out, q.as_str());
        push_char(&mut out, ':');
        value_to_json(&mut out, &entries[i].1);
        i += 1;
        assert(out@ =~= mid + entry_json(pv[i - 1]));
        assert(out@ =~= seq!['{'] + comma_joined(items.subrange(0, i as int)));
    }
    assert(items.subrange(0, entries@.len() as int) =~= items);
    push_char(&mut out, '}');
    assert(out@ =~= object_json(pv));
    out
}

impl ConfigSettings {
    /// The entries ordered by key.
    fn sorted_entries(&self) -> (r: Vec<(String, ConfigSettingValue)>)
        ensures
            pairs_view(r@) == sort_entries(self@),
    {
        let copy = self.clone_settings();
        let mut rest = copy.entries;
        let mut out: Vec<(String, ConfigSettingValue)> = Vec::new();
        assert(pairs_view(rest@) == self@);
        assert(pairs_view(out@) + sort_entries(pairs_view(rest@)) =~= sort_entries(self@));
        while rest.len() > 0
            invariant
                pairs_view(out@) + sort_entries(pairs_view(rest@)) == sort_entries(self@),
            decreases rest@.len(),
        {
            let ghost rv = pairs_view(rest@);
            let ghost ov = pairs_view(out@);
            let m = min_index_exec(&rest);
            proof {
                lemma_min_index(rv);
            }
            let e = rest.remove(m);
            assert(pairs_view(rest@) =~= rv.remove(m as int));
            let ghost ev = (e.0@, e.1@);
            assert(ev == rv[m as int]);
            out.push(e);
            assert(pairs_view(out@) =~= ov.push(ev));
            assert(sort_entries(rv) == seq![ev] + sort_entries(rv.remove(m as int)));
            assert(pairs_view(out@) + sort_entries(pairs_view(rest@)) =~= ov + sort_entries(rv));
        }
        assert(sort_entries(pairs_view(rest@)) =~= Seq::<(Seq<char>, ValueView)>::empty());
        assert(pairs_view(out@) =~= sort_entries(self@));
        out
    }

    /// The settings as a compact JSON object, keys in increasing order, for
    /// passing directly to a PEP 517 build backend.
    pub fn escape_for_python(&self) -> (r: String)
        ensures
            r@ == settings_json(self@),
    {
        let sorted = self.sorted_entries();
        object_to_json(&sorted)
    }
}


// ---------------------------------------------------------------------------
// Reading the JSON text back.

pub open spec fn hex_val(c: char) -> Option<int> {
    let n = c as int;
    if 0x30 <= n <= 0x39 {
        Some(n - 0x30)
    } else if 0x61 <= n <= 0x66 {
        Some(n - 0x61 + 10)
    } else if 0x41 <= n <= 0x46 {
        Some(n - 0x41 + 10)
    } else {
        None
    }
}

/// The character a one-letter escape stands for.
pub open spec fn simple_escape(e: char) -> Option<char> {
    if e == '"' {
        Some('"')
    } else if e == '\\' {
        Some('\\')
    } else if e == '/' {
        Some('/')
    } else if e == 'b' {
        Some('\u{8}')
    } else if e == 'f' {
        Some('\u{c}')
    } else if e == 'n' {
        Some('\n')
    } else if e == 'r' {
        Some('\r')
    } else if e == 't' {
        Some('\t')
    } else {
        None
    }
}

/// The character of a `\uXXXX` escape with these four digits; only ASCII
/// characters are read this way.
pub open spec fn unicode_escape(d: Seq<char>) -> Option<char> {
    if d.len() == 4 && hex_val(d[0]) is Some && hex_val(d[1]) is Some && hex_val(d[2]) is Some
        && hex_val(d[3]) is Some {
        let v = hex_val(d[0])->0 * 4096 + hex_val(d[1])->0 * 256 + hex_val(d[2])->0 * 16 + hex_val(
            d[3],
        )->0;
        if v < 0x80 {
            Some(v as char)
        } else {
            None
        }
    } else {
        None
    }
}

/// Decodes the body of a JSON string literal up to its closing quote: the
/// characters, and how many input characters that took, quote included.
pub open spec fn string_body(t: Seq<char>) -> Option<(Seq<char>, nat)>
    decreases t.len(),
{
    if t.len() == 0 {
        None
    } else if t[0] == '"' {
        Some((seq![], 1))
    } else if t[0] == '\\' {
        if t.len() >= 2 && simple_escape(t[1]) is Some {
            match string_body(t.subrange(2, t.len() as int)) {
                Some((s, n)) => Some((seq![simple_escape(t[1])->0] + s, n + 2)),
                None => None,
            }
        } else if t.len() >= 6 && t[1] == 'u' && unicode_escape(t.subrange(2, 6)) is Some {
            match string_body(t.subrange(6, t.len() as int)) {
                Some((s, n)) => Some((seq![unicode_escape(t.subrange(2, 6))->0] + s, n + 6)),
                None => None,
            }
        } else {
            None
        }
    } else if (t[0] as int) < 0x20 {
        None
    } else {
        match string_body(t.drop_first()) {
            Some((s, n)) => Some((seq![t[0]] + s, n + 1)),
            None => None,
        }
    }
}

/// A JSON string literal at the start of `t`.
pub open spec fn string_lit(t: Seq<char>) -> Option<(Seq<char>, nat)> {
    if t.len() > 0 && t[0] == '"' {
        match string_body(t.drop_first()) {
            Some((s, n)) => Some((s, n + 1)),
            None => None,
        }
    } else {
        None
    }
}

/// The string literals of a non-empty JSON list, after its `[`, up to and
/// with its `]`.
pub open spec fn list_items(t: Seq<char>) -> Option<(Seq<Seq<char>>, nat)>
    decreases t.len(),
{
    match string_lit(t) {
        Some((s, n)) => if n < t.len() {
            if t[n as int] == ']' {
                Some((seq![s], n + 1))
            } else if t[n as int] == ',' {
                match list_items(t.subrange(n + 1int, t.len() as int)) {
                    Some((l, m)) => Some((seq![s] + l, n + 1 + m)),
                    None => None,
                }
            } else {
                None
            }
        } else {
            None
        },
        None => None,
    }
}

/// A string or a list of strings at the start of `t`.
pub open spec fn value_lit(t: Seq<char>) -> Option<(ValueView, nat)> {
    if t.len() > 0 && t[0] == '[' {
        if t.len() > 1 && t[1] == ']' {
            Some((ValueView::List(seq![]), 2))
        } else {
            match list_items(t.drop_first()) {
                Some((l, m)) => Some((ValueView::List(l), m + 1)),
                None => None,
            }
        }
    } else {
        match string_lit(t) {
            Some((s, n)) => Some((ValueView::Str(s), n)),
            None => None,
        }
    }
}

/// The members of a non-empty JSON object, after its `{`, up to and with its
/// `}`.
#[verifier::opaque]
pub open spec fn entries_lit(t: Seq<char>) -> Option<(EntriesView, nat)>
    decreases t.len(),
{
    match string_lit(t) {
        Some((k, n)) => if n < t.len() && t[n as int] == ':' {
            match value_lit(t.subrange(n + 1int, t.len() as int)) {
                Some((v, m)) => {
                    let e = n + 1 + m;
                    if e < t.len() {
                        if t[e as int] == '}' {
                            Some((seq![(k, v)], e + 1))
                        } else if t[e as int] == ',' {
                            match entries_lit(t.subrange(e + 1int, t.len() as int)) {
                                Some((rest, r)) => Some((seq![(k, v)] + rest, e + 1 + r)),
                                None => None,
                            }
                        } else {
                            None
                        }
                    } else {
                        None
                    }
                },
                None => None,
            }
        } else {
            None
        },
        None => None,
    }
}

/// The members, in order, of a compact JSON object whose values are strings
/// or lists of strings, where `t` is exactly such an object.
pub open spec fn object_pairs(t: Seq<char>) -> Option<EntriesView> {
    if t.len() >= 2 && t[0] == '{' {
        if t.len() == 2 && t[1] == '}' {
            Some(seq![])
        } else {
            match entries_lit(t.drop_first()) {
                Some((es, n)) => if n + 1 == t.len() {
                    Some(es)
                } else {
                    None
                },
                None => None,
            }
        }
    } else {
        None
    }
}

/// The value the last member with key `k` has.
pub open spec fn pairs_lookup(p: EntriesView, k: Seq<char>) -> Option<ValueView>
    decreases p.len(),
{
    if p.len() == 0 {
        None
    } else if p.last().0 == k {
        Some(p.last().1)
    } else {
        pairs_lookup(p.drop_last(), k)
    }
}

proof fn lemma_hex_digits(k: int)
    requires
        0 <= k < 16,
    ensures
        hex_val(hex_digits()[k]) == Some(k),
{
    assert(hex_digits()[k] == seq![
        '0',
        '1',
        '2',
        '3',
        '4',
        '5',
        '6',
        '7',
        '8',
        '9',
        'a',
        'b',
        'c',
        'd',
        'e',
        'f',
    ][k]);
}

proof fn lemma_escape_simple(c: char, u: Seq<char>)
    requires
        c == '"' || c == '\\' || c == '\u{8}' || c == '\t' || c == '\n' || c == '\u{c}' || c
            == '\r',
    ensures
        string_body(json_escape_char(c) + u) == match string_body(u) {
            Some((s, n)) => Some((seq![c] + s, n + json_escape_char(c).len())),
            None => None,
        },
{
    let e = json_escape_char(c);
    let t = e + u;
    assert(e.len() == 2);
    assert(t[0] == '\\');
    assert(t[1] == e[1]);
    assert(simple_escape(e[1]) == Some(c));
    assert(t.subrange(2, t.len() as int) =~= u);
}

#[verifier::rlimit(50)]
proof fn lemma_escape_control(c: char, u: Seq<char>)
    requires
        (c as int) < 0x20,
        !(c == '"' || c == '\\' || c == '\u{8}' || c == '\t' || c == '\n' || c == '\u{c}' || c
            == '\r'),
    ensures
        string_body(json_escape_char(c) + u) == match string_body(u) {
            Some((s, n)) => Some((seq![c] + s, n + json_escape_char(c).len())),
            None => None,
        },
{
    let e = json_escape_char(c);
    let t = e + u;
    assert(e.len() == 6);
    assert(t[0] == '\\');
    assert(t[1] == 'u');
    assert(simple_escape('u') is None);
    let d = t.subrange(2, 6);
    let ci = c as int;
    assert(ci >= 0);
    let hi: int = if ci < 0x10 {
        0
    } else {
        1
    };
    assert(d =~= seq![
        '0',
        '0',
        if ci < 0x10 {
            '0'
        } else {
            '1'
        },
        hex_digits()[ci % 16],
    ]);
    lemma_hex_digits(ci % 16);
    assert(hex_val(d[2]) == Some(hi));
    assert(hi * 16 + ci % 16 == ci) by (nonlinear_arith)
        requires
            0 <= ci < 0x20,
            hi == (if ci < 0x10 {
                0int
            } else {
                1int
            }),
    ;
    assert(unicode_escape(d) == Some(c));
    assert(t.subrange(6, t.len() as int) =~= u);
}

proof fn lemma_escape_plain(c: char, u: Seq<char>)
    requires
        (c as int) >= 0x20,
        c != '"',
        c != '\\',
    ensures
        string_body(json_escape_char(c) + u) == match string_body(u) {
            Some((s, n)) => Some((seq![c] + s, n + json_escape_char(c).len())),
            None => None,
        },
{
    let e = json_escape_char(c);
    assert(e =~= seq![c]);
    let t = e + u;
    assert(t[0] == c);
    assert(t.drop_first() =~= u);
}

proof fn lemma_string_body(s: Seq<char>, rest: Seq<char>)
    ensures
        string_body(json_escape(s) + seq!['"'] + rest) == Some(
            (s, (json_escape(s).len() + 1) as nat),
        ),
    decreases s.len(),
{
    let t = json_escape(s) + seq!['"'] + rest;
    if s.len() == 0 {
        assert(json_escape(s) =~= Seq::<char>::empty());
        assert(t[0] == '"');
    } else {
        let c = s[0];
        let tail = s.drop_first();
        lemma_string_body(tail, rest);
        let u = json_escape(tail) + seq!['"'] + rest;
        assert(json_escape(s) == json_escape_char(c) + json_escape(tail));
        assert(t =~= json_escape_char(c) + u);
        if c == '"' || c == '\\' || c == '\u{8}' || c == '\t' || c == '\n' || c == '\u{c}' || c
            == '\r' {
            lemma_escape_simple(c, u);
        } else if (c as int) < 0x20 {
            lemma_escape_control(c, u);
        } else {
            lemma_escape_plain(c, u);
        }
        assert(seq![c] + tail =~= s);
    }
}

proof fn lemma_string_lit(s: Seq<char>, rest: Seq<char>)
    ensures
        string_lit(json_quoted(s) + rest) == Some((s, json_quoted(s).len())),
{
    let t = json_quoted(s) + rest;
    lemma_string_body(s, rest);
    assert(t.drop_first() =~= json_escape(s) + seq!['"'] + rest);
}

proof fn lemma_comma_joined_front(items: Seq<Seq<char>>)
    requires
        items.len() >= 2,
    ensures
        comma_joined(items) == items[0] + seq![','] + comma_joined(items.drop_first()),
    decreases items.len(),
{
    assert(comma_joined(items) == comma_joined(items.drop_last()) + seq![','] + items.last());
    if items.len() == 2 {
        assert(items.drop_first() =~= seq![items[1]]);
        assert(items.drop_last() =~= seq![items[0]]);
        assert(comma_joined(items.drop_last()) == items[0]);
        assert(comma_joined(items.drop_first()) == items[1]);
        assert(items.last() == items[1]);
    } else {
        let dl = items.drop_last();
        let df = items.drop_first();
        lemma_comma_joined_front(dl);
        assert(dl.drop_first() =~= df.drop_last());
        assert(dl[0] == items[0]);
        assert(df.last() == items.last());
        assert(df.len() >= 2);
        assert(comma_joined(df) == comma_joined(df.drop_last()) + seq![','] + df.last());
        assert(comma_joined(items) =~= items[0] + seq![','] + comma_joined(df));
    }
}

#[verifier::rlimit(50)]
#[verifier::spinoff_prover]
proof fn lemma_list_items(l: Seq<Seq<char>>, rest: Seq<char>)
    requires
        l.len() > 0,
    ensures
        list_items(comma_joined(l.map_values(|x: Seq<char>| json_quoted(x))) + seq![']'] + rest)
            == Some(
            (l, (comma_joined(l.map_values(|x: Seq<char>| json_quoted(x))).len() + 1) as nat),
        ),
    decreases l.len(),
{
    let q = l.map_values(|x: Seq<char>| json_quoted(x));
    let t = comma_joined(q) + seq![']'] + rest;
    if l.len() == 1 {
        assert(comma_joined(q) == q[0]);
        lemma_string_lit(l[0], seq![']'] + rest);
        assert(t =~= json_quoted(l[0]) + (seq![']'] + rest));
        assert(t[json_quoted(l[0]).len() as int] == ']');
        assert(seq![l[0]] =~= l);
    } else {
        lemma_comma_joined_front(q);
        let tail = l.drop_first();
        let qt = tail.map_values(|x: Seq<char>| json_quoted(x));
        assert(q.drop_first() =~= qt);
        lemma_list_items(tail, rest);
        let u = comma_joined(qt) + seq![']'] + rest;
        assert(t =~= json_quoted(l[0]) + (seq![','] + u));
        lemma_string_lit(l[0], seq![','] + u);
        let n = json_quoted(l[0]).len();
        assert(t[n as int] == ',');
        assert(t.subrange(n + 1int, t.len() as int) =~= u);
        assert(seq![l[0]] + tail =~= l);
    }
}

proof fn lemma_value_lit(v: ValueView, rest: Seq<char>)
    ensures
        value_lit(value_json(v) + rest) == Some((v, value_json(v).len())),
{
    match v {
        ValueView::Str(s) => {
            lemma_string_lit(s, rest);
            assert(value_json(v) + rest =~= json_quoted(s) + rest);
        },
        ValueView::List(l) => {
            let q = l.map_values(|x: Seq<char>| json_quoted(x));
            let t = value_json(v) + rest;
            if l.len() == 0 {
                assert(q.len() == 0);
                assert(comma_joined(q) =~= Seq::<char>::empty());
                assert(t[1] == ']');
                assert(l =~= Seq::<Seq<char>>::empty());
            } else {
                lemma_list_items(l, rest);
                assert(t.drop_first() =~= comma_joined(q) + seq![']'] + rest);
                assert(q[0] == json_quoted(l[0]));
                if q.len() >= 2 {
                    lemma_comma_joined_front(q);
                }
                assert(comma_joined(q)[0] == '"');
                assert(t[1] == '"');
            }
        },
    }
}

proof fn lemma_entry_prefix(k: Seq<char>, v: ValueView, after: Seq<char>)
    ensures
        ({
            let t = json_quoted(k) + seq![':'] + value_json(v) + after;
            let n = json_quoted(k).len();
            let e = n + 1 + value_json(v).len();
            &&& string_lit(t) == Some((k, n))
            &&& n < t.len()
            &&& t[n as int] == ':'
            &&& value_lit(t.subrange(n + 1int, t.len() as int)) == Some((v, value_json(v).len()))
            &&& t.subrange(e as int, t.len() as int) == after
        }),
{
    let t = json_quoted(k) + seq![':'] + value_json(v) + after;
    let n = json_quoted(k).len();
    assert(t =~= json_quoted(k) + (seq![':'] + value_json(v) + after));
    lemma_string_lit(k, seq![':'] + value_json(v) + after);
    assert(t[n as int] == ':');
    assert(t.subrange(n + 1int, t.len() as int) =~= value_json(v) + after);
    lemma_value_lit(v, after);
    let e = n + 1 + value_json(v).len();
    assert(t.subrange(e as int, t.len() as int) =~= after);
}

proof fn lemma_entries_lit_step(t: Seq<char>, k: Seq<char>, v: ValueView, n: nat, m: nat)
    requires
        string_lit(t) == Some((k, n)),
        n < t.len(),
        t[n as int] == ':',
        value_lit(t.subrange(n + 1int, t.len() as int)) == Some((v, m)),
        n + 1 + m < t.len(),
    ensures
        t[(n + 1 + m) as int] == '}' ==> entries_lit(t) == Some((seq![(k, v)], n + 1 + m + 1)),
        t[(n + 1 + m) as int] == ',' ==> entries_lit(t) == match entries_lit(
            t.subrange((n + 1 + m + 1) as int, t.len() as int),
        ) {
            Some((rest, r)) => Some((seq![(k, v)] + rest, n + 1 + m + 1 + r)),
            None => None,
        },
{
    reveal_with_fuel(entries_lit, 1);
}

#[verifier::rlimit(100)]
#[verifier::spinoff_prover]
proof fn lemma_entries_lit(x: EntriesView, rest: Seq<char>)
    requires
        x.len() > 0,
    ensures
        entries_lit(
            comma_joined(x.map_values(|e: (Seq<char>, ValueView)| entry_json(e))) + seq!['}']
                + rest,
        ) == Some(
            (
                x,
                (comma_joined(x.map_values(|e: (Seq<char>, ValueView)| entry_json(e))).len()
                    + 1) as nat,
            ),
        ),
    decreases x.len(),
{
    let q = x.map_values(|e: (Seq<char>, ValueView)| entry_json(e));
    let t = comma_joined(q) + seq!['}'] + rest;
    let k = x[0].0;
    let v = x[0].1;
    assert(q[0] == json_quoted(k) + seq![':'] + value_json(v));
    let n = json_quoted(k).len();
    let e = n + 1 + value_json(v).len();
    if x.len() == 1 {
        assert(comma_joined(q) == q[0]);
        let after = seq!['}'] + rest;
        assert(t =~= json_quoted(k) + seq![':'] + value_json(v) + after);
        lemma_entry_prefix(k, v, after);
        assert(t[e as int] == after[0]);
        lemma_entries_lit_step(t, k, v, n, value_json(v).len());
        assert(seq![(k, v)] =~= x);
    } else {
        lemma_comma_joined_front(q);
        let tail = x.drop_first();
        let qt = tail.map_values(|e: (Seq<char>, ValueView)| entry_json(e));
        assert(q.drop_first() =~= qt);
        lemma_entries_lit(tail, rest);
        let after = seq![','] + (comma_joined(qt) + seq!['}'] + rest);
        assert(t =~= json_quoted(k) + seq![':'] + value_json(v) + after);
        lemma_entry_prefix(k, v, after);
        assert(t[e as int] == after[0]);
        assert(t.subrange(e + 1int, t.len() as int) =~= comma_joined(qt) + seq!['}'] + rest);
        lemma_entries_lit_step(t, k, v, n, value_json(v).len());
        assert(seq![(k, v)] + tail =~= x);
    }
}

proof fn lemma_pairs_lookup_distinct(x: EntriesView, k: Seq<char>)
    requires
        distinct_keys(x),
    ensures
        pairs_lookup(x, k) == lookup(x, k),
    decreases x.len(),
{
    if x.len() == 0 {
    } else {
        let init = x.drop_last();
        assert(distinct_keys(init)) by {
            assert forall|i: int, j: int| 0 <= i < j < init.len() implies #[trigger] init[i].0
                != #[trigger] init[j].0 by {
                assert(init[i] == x[i] && init[j] == x[j]);
            }
        }
        lemma_pairs_lookup_distinct(init, k);
        if x.last().0 == k {
            lemma_lookup_at(x, x.len() - 1);
        } else {
            assert(has_key(init, k) == has_key(x, k)) by {
                if has_key(x, k) {
                    let i = choose|i: int| 0 <= i < x.len() && #[trigger] x[i].0 == k;
                    assert(i != x.len() - 1);
                    assert(init[i].0 == k);
                }
                if has_key(init, k) {
                    let i = choose|i: int| 0 <= i < init.len() && #[trigger] init[i].0 == k;
                    assert(x[i].0 == k);
                }
            }
            if has_key(x, k) {
                let i = choose|i: int| 0 <= i < init.len() && #[trigger] init[i].0 == k;
                lemma_lookup_at(init, i);
                assert(x[i] == init[i]);
                lemma_lookup_at(x, i);
            }
        }
    }
}

proof fn lemma_object_round_trip(x: EntriesView)
    ensures
        object_pairs(object_json(x)) == Some(x),
{
    let q = x.map_values(|e: (Seq<char>, ValueView)| entry_json(e));
    let t = object_json(x);
    if x.len() == 0 {
        assert(comma_joined(q) =~= Seq::<char>::empty());
        assert(t =~= seq!['{', '}']);
        assert(x =~= Seq::<(Seq<char>, ValueView)>::empty());
    } else {
        lemma_entries_lit(x, seq![]);
        assert(t.drop_first() =~= comma_joined(q) + seq!['}'] + Seq::<char>::empty());
        if q.len() >= 2 {
            lemma_comma_joined_front(q);
        }
        assert(q[0] == entry_json(x[0]));
        assert(comma_joined(q)[0] == '"');
        assert(t[1] == '"');
    }
}

/// Settings written as JSON read back as the same settings: the text parses
/// into the members ordered by key, and every key has the value it had.
pub proof fn lemma_json_round_trip(x: EntriesView)
    requires
        distinct_keys(x),
    ensures
        object_pairs(settings_json(x)) == Some(sort_entries(x)),
        forall|k: Seq<char>| #[trigger] pairs_lookup(sort_entries(x), k) == lookup(x, k),
{
    lemma_object_round_trip(sort_entries(x));
    lemma_sort_entries(x);
    assert forall|k: Seq<char>| #[trigger] pairs_lookup(sort_entries(x), k) == lookup(x, k) by {
        lemma_pairs_lookup_distinct(sort_entries(x), k);
    }
}


// ---------------------------------------------------------------------------
// The reader.

/// What a successful read yields.
pub open spec fn parsed<A, B>(r: Option<(A, B)>) -> A {
    let p = r->0;
    p.0
}

/// How many characters a successful read took.
pub open spec fn consumed<A, B>(r: Option<(A, B)>) -> B {
    let p = r->0;
    p.1
}

pub open spec fn pairs_view(v: Seq<(String, ConfigSettingValue)>) -> EntriesView {
    v.map_values(|e: (String, ConfigSettingValue)| (e.0@, e.1@))
}

fn hex_val_exec(c: char) -> (r: Option<u32>)
    ensures
        r is Some <==> hex_val(c) is Some,
        r matches Some(v) ==> v as int == hex_val(c)->0 && v < 16,
{
    let n = c as u32;
    if 0x30 <= n && n <= 0x39 {
        Some(n - 0x30)
    } else if 0x61 <= n && n <= 0x66 {
        Some(n - 0x61 + 10)
    } else if 0x41 <= n && n <= 0x46 {
        Some(n - 0x41 + 10)
    } else {
        None
    }
}

fn simple_escape_exec(e: char) -> (r: Option<char>)
    ensures
        r == simple_escape(e),
{
    match e {
        '"' => Some('"'),
        '\\' => Some('\\'),
        '/' => Some('/'),
        'b' => Some('\u{8}'),
        'f' => Some('\u{c}'),
        'n' => Some('\n'),
        'r' => Some('\r'),
        't' => Some('\t'),
        _ => None,
    }
}

fn unicode_escape_exec(t: &Vec<char>, pos: usize) -> (r: Option<char>)
    requires
        pos + 4 <= t@.len(),
    ensures
        r == unicode_escape(t@.subrange(pos as int, pos + 4)),
{
    let len = t.len();
    let ghost d = t@.subrange(pos as int, pos + 4);
    assert(d[0] == t@[pos as int] && d[1] == t@[pos + 1] && d[2] == t@[pos + 2] && d[3] == t@[pos
        + 3]);
    let a = match hex_val_exec(t[pos]) {
        Some(v) => v,
        None => return None,
    };
    let b = match hex_val_exec(t[pos + 1]) {
        Some(v) => v,
        None => return None,
    };
    let c = match hex_val_exec(t[pos + 2]) {
        Some(v) => v,
        None => return None,
    };
    let e = match hex_val_exec(t[pos + 3]) {
        Some(v) => v,
        None => return None,
    };
    let v = a * 4096 + b * 256 + c * 16 + e;
    if v < 0x80 {
        let ch = (v as u8) as char;
        assert(ch == (v as int) as char);
        Some(ch)
    } else {
        None
    }
}

#[verifier::rlimit(60)]
#[verifier::spinoff_prover]
fn string_body_exec(t: &Vec<char>, pos: usize) -> (r: Option<(Vec<char>, usize)>)
    requires
        pos <= t@.len(),
    ensures
        r is Some <==> string_body(t@.subrange(pos as int, t@.len() as int)) is Some,
        r matches Some((v, n)) ==> v@ == parsed(string_body(t@.subrange(pos as int, t@.len() as int)))
            && n as nat == consumed(string_body(t@.subrange(pos as int, t@.len() as int))),
    decreases t@.len() - pos,
{
    let ghost u = t@.subrange(pos as int, t@.len() as int);
    let len = t.len();
    if pos == len {
        return None;
    }
    let c = t[pos];
    assert(u[0] == c);
    if c == '"' {
        return Some((Vec::new(), 1));
    }
    if c == '\\' {
        if len - pos >= 2 {
            assert(u[1] == t@[pos + 1]);
            match simple_escape_exec(t[pos + 1]) {
                Some(d) => {
                    assert(u.subrange(2, u.len() as int) =~= t@.subrange(pos + 2, t@.len() as int));
                    match string_body_exec(t, pos + 2) {
                        Some((mut v, n)) => {
                            if n > usize::MAX - 2 {
                                proof {
                                    lemma_string_body_bounded(t@.subrange(pos + 2, t@.len() as int));
                                }
                                return None;
                            }
                            let ghost old_v = v@;
                            v.insert(0, d);
                            assert(v@ =~= seq![d] + old_v);
                            return Some((v, n + 2));
                        },
                        None => return None,
                    }
                },
                None => {},
            }
        }
        if len - pos >= 6 && t[pos + 1] == 'u' {
            assert(u[1] == t@[pos + 1]);
            assert(u.subrange(2, 6) =~= t@.subrange(pos + 2, pos + 6));
            match unicode_escape_exec(t, pos + 2) {
                Some(d) => {
                    assert(u.subrange(6, u.len() as int) =~= t@.subrange(pos + 6, t@.len() as int));
                    match string_body_exec(t, pos + 6) {
                        Some((mut v, n)) => {
                            if n > usize::MAX - 6 {
                                proof {
                                    lemma_string_body_bounded(t@.subrange(pos + 6, t@.len() as int));
                                }
                                return None;
                            }
                            let ghost old_v = v@;
                            v.insert(0, d);
                            assert(v@ =~= seq![d] + old_v);
                            return Some((v, n + 6));
                        },
                        None => return None,
                    }
                },
                None => return None,
            }
        }
        return None;
    }
    if ' ' > c {
        return None;
    }
    assert(u.drop_first() =~= t@.subrange(pos + 1, t@.len() as int));
    match string_body_exec(t, pos + 1) {
        Some((mut v, n)) => {
            if n > usize::MAX - 1 {
                proof {
                    lemma_string_body_bounded(t@.subrange(pos + 1, t@.len() as int));
                }
                return None;
            }
            let ghost old_v = v@;
            v.insert(0, c);
            assert(v@ =~= seq![c] + old_v);
            Some((v, n + 1))
        },
        None => None,
    }
}

/// A literal read from `t` takes at most all of `t`.
proof fn lemma_string_body_bounded(t: Seq<char>)
    ensures
        string_body(t) matches Some((s, n)) ==> n <= t.len(),
    decreases t.len(),
{
    if t.len() > 0 && t[0] != '"' {
        if t[0] == '\\' {
            if t.len() >= 2 && simple_escape(t[1]) is Some {
                lemma_string_body_bounded(t.subrange(2, t.len() as int));
            } else if t.len() >= 6 && t[1] == 'u' && unicode_escape(t.subrange(2, 6)) is Some {
                lemma_string_body_bounded(t.subrange(6, t.len() as int));
            }
        } else if (t[0] as int) >= 0x20 {
            lemma_string_body_bounded(t.drop_first());
        }
    }
}

fn string_lit_exec(t: &Vec<char>, pos: usize) -> (r: Option<(String, usize)>)
    requires
        pos <= t@.len(),
    ensures
        r is Some <==> string_lit(t@.subrange(pos as int, t@.len() as int)) is Some,
        r matches Some((v, n)) ==> v@ == parsed(string_lit(t@.subrange(pos as int, t@.len() as int)))
            && n as nat == consumed(string_lit(t@.subrange(pos as int, t@.len() as int))),
{
    let ghost u = t@.subrange(pos as int, t@.len() as int);
    if pos == t.len() || t[pos] != '"' {
        return None;
    }
    assert(u[0] == t@[pos as int]);
    assert(u.drop_first() =~= t@.subrange(pos + 1, t@.len() as int));
    match string_body_exec(t, pos + 1) {
        Some((v, n)) => {
            proof {
                lemma_string_body_bounded(t@.subrange(pos + 1, t@.len() as int));
            }
            Some((string_of(&v), n + 1))
        },
        None => None,
    }
}

#[verifier::rlimit(60)]
#[verifier::spinoff_prover]
fn list_items_exec(t: &Vec<char>, pos: usize) -> (r: Option<(Vec<String>, usize)>)
    requires
        pos <= t@.len(),
    ensures
        r is Some <==> list_items(t@.subrange(pos as int, t@.len() as int)) is Some,
        r matches Some((v, n)) ==> strings_view(v@) == parsed(list_items(
            t@.subrange(pos as int, t@.len() as int),
        )) && n as nat == consumed(list_items(t@.subrange(pos as int, t@.len() as int))),
    decreases t@.len() - pos,
{
    let ghost u = t@.subrange(pos as int, t@.len() as int);
    let (s, n) = match string_lit_exec(t, pos) {
        Some(x) => x,
        None => return None,
    };
    let len = t.len();
    if n >= len - pos {
        return None;
    }
    assert(u[n as int] == t@[pos + n]);
    if t[pos + n] == ']' {
        let v = vec![s];
        assert(strings_view(v@) =~= seq![s@]);
        return Some((v, n + 1));
    }
    if t[pos + n] == ',' {
        assert(u.subrange(n + 1int, u.len() as int) =~= t@.subrange(pos + n + 1, t@.len() as int));
        match list_items_exec(t, pos + n + 1) {
            Some((mut l, m)) => {
                proof {
                    lemma_list_items_bounded(t@.subrange(pos + n + 1, t@.len() as int));
                }
                let ghost old_l = strings_view(l@);
                l.insert(0, s);
                assert(strings_view(l@) =~= seq![s@] + old_l);
                return Some((l, n + 1 + m));
            },
            None => return None,
        }
    }
    None
}

proof fn lemma_list_items_bounded(t: Seq<char>)
    ensures
        list_items(t) matches Some((l, n)) ==> n <= t.len(),
    decreases t.len(),
{
    if let Some((s, n)) = string_lit(t) {
        if n < t.len() && t[n as int] == ',' {
            lemma_list_items_bounded(t.subrange(n + 1int, t.len() as int));
        }
    }
}

#[verifier::rlimit(60)]
#[verifier::spinoff_prover]
fn value_lit_exec(t: &Vec<char>, pos: usize) -> (r: Option<(ConfigSettingValue, usize)>)
    requires
        pos <= t@.len(),
    ensures
        r is Some <==> value_lit(t@.subrange(pos as int, t@.len() as int)) is Some,
        r matches Some((v, n)) ==> v@ == parsed(value_lit(t@.subrange(pos as int, t@.len() as int)))
            && n as nat == consumed(value_lit(t@.subrange(pos as int, t@.len() as int))),
{
    let ghost u = t@.subrange(pos as int, t@.len() as int);
    let len = t.len();
    if pos < len && t[pos] == '[' {
        assert(u[0] == t@[pos as int]);
        if len - pos > 1 && t[pos + 1] == ']' {
            assert(u[1] == t@[pos + 1]);
            let v: Vec<String> = Vec::new();
            assert(strings_view(v@) =~= Seq::<Seq<char>>::empty());
            return Some((ConfigSettingValue::List(v), 2));
        }
        if len - pos > 1 {
            assert(u[1] == t@[pos + 1]);
        }
        assert(u.drop_first() =~= t@.subrange(pos + 1, t@.len() as int));
        match list_items_exec(t, pos + 1) {
            Some((l, m)) => {
                proof {
                    lemma_list_items_bounded(t@.subrange(pos + 1, t@.len() as int));
                }
                return Some((ConfigSettingValue::List(l), m + 1));
            },
            None => return None,
        }
    }
    if pos < len {
        assert(u[0] == t@[pos as int]);
    }
    match string_lit_exec(t, pos) {
        Some((s, n)) => Some((ConfigSettingValue::String(s), n)),
        None => None,
    }
}

proof fn lemma_value_lit_bounded(t: Seq<char>)
    ensures
        value_lit(t) matches Some((v, n)) ==> n <= t.len(),
{
    if t.len() > 0 && t[0] == '[' {
        lemma_list_items_bounded(t.drop_first());
    } else {
        lemma_string_body_bounded(t.drop_first());
    }
}

#[verifier::rlimit(60)]
#[verifier::spinoff_prover]
fn entries_lit_exec(t: &Vec<char>, pos: usize) -> (r: Option<(Vec<(String, ConfigSettingValue)>, usize)>)
    requires
        pos <= t@.len(),
    ensures
        r is Some <==> entries_lit(t@.subrange(pos as int, t@.len() as int)) is Some,
        r matches Some((v, n)) ==> pairs_view(v@) == parsed(entries_lit(
            t@.subrange(pos as int, t@.len() as int),
        )) && n as nat == consumed(entries_lit(t@.subrange(pos as int, t@.len() as int))),
    decreases t@.len() - pos,
{
    proof {
        reveal_with_fuel(entries_lit, 1);
    }
    let ghost u = t@.subrange(pos as int, t@.len() as int);
    let (k, n) = match string_lit_exec(t, pos) {
        Some(x) => x,
        None => return None,
    };
    let len = t.len();
    if n >= len - pos {
        return None;
    }
    assert(u[n as int] == t@[pos + n]);
    if t[pos + n] != ':' {
        return None;
    }
    assert(u.subrange(n + 1int, u.len() as int) =~= t@.subrange(pos + n + 1, t@.len() as int));
    let (v, m) = match value_lit_exec(t, pos + n + 1) {
        Some(x) => x,
        None => return None,
    };
    proof {
        lemma_value_lit_bounded(t@.subrange(pos + n + 1, t@.len() as int));
    }
    let e = n + 1 + m;
    if e >= len - pos {
        return None;
    }
    assert(u[e as int] == t@[pos + e]);
    if t[pos + e] == '}' {
        let out = vec![(k, v)];
        assert(pairs_view(out@) =~= seq![(out@[0].0@, out@[0].1@)]);
        return Some((out, e + 1));
    }
    if t[pos + e] == ',' {
        assert(u.subrange(e + 1int, u.len() as int) =~= t@.subrange(pos + e + 1, t@.len() as int));
        match entries_lit_exec(t, pos + e + 1) {
            Some((mut rest, r)) => {
                proof {
                    lemma_entries_lit_bounded(t@.subrange(pos + e + 1, t@.len() as int));
                }
                let ghost old_rest = pairs_view(rest@);
                let ghost kv = k@;
                let ghost vv = v@;
                rest.insert(0, (k, v));
                assert(pairs_view(rest@) =~= seq![(kv, vv)] + old_rest);
                return Some((rest, e + 1 + r));
            },
            None => return None,
        }
    }
    None
}

proof fn lemma_entries_lit_bounded(t: Seq<char>)
    ensures
        entries_lit(t) matches Some((es, n)) ==> n <= t.len(),
    decreases t.len(),
{
    reveal_with_fuel(entries_lit, 1);
    if let Some((k, n)) = string_lit(t) {
        if n < t.len() && t[n as int] == ':' {
            if let Some((v, m)) = value_lit(t.subrange(n + 1int, t.len() as int)) {
                let e = n + 1 + m;
                if e < t.len() && t[e as int] == ',' {
                    lemma_entries_lit_bounded(t.subrange(e + 1int, t.len() as int));
                }
            }
        }
    }
}

impl ConfigSettings {
    /// Reads settings from a compact JSON object whose values are strings or
    /// lists of strings, as `escape_for_python` writes it; where a key comes
    /// twice, the last value stands.
    #[verifier::rlimit(40)]
    #[verifier::spinoff_prover]
    pub fn from_json(s: &str) -> (r: Option<ConfigSettings>)
        ensures
            r is Some <==> object_pairs(s@) is Some,
            r matches Some(c) ==> c.wf() && forall|k: Seq<char>|
                #[trigger] lookup(c@, k) == pairs_lookup(object_pairs(s@)->0, k),
    {
        let t = chars_of(s);
        let len = t.len();
        if len < 2 || t[0] != '{' {
            return None;
        }
        let pairs: Vec<(String, ConfigSettingValue)> = if len == 2 && t[1] == '}' {
            Vec::new()
        } else {
            assert(t@.subrange(1, t@.len() as int) =~= s@.drop_first());
            match entries_lit_exec(&t, 1) {
                Some((es, n)) => {
                    if n != len - 1 {
                        return None;
                    }
                    es
                },
                None => return None,
            }
        };
        let ghost pv = pairs_view(pairs@);
        assert(pv == object_pairs(s@)->0) by {
            if len == 2 && t@[1] == '}' {
                assert(pv =~= Seq::<(Seq<char>, ValueView)>::empty());
            }
        }
        let mut r = ConfigSettings::new();
        let mut i: usize = 0;
        while i < pairs.len()
            invariant
                i <= pairs@.len(),
                pv == pairs_view(pairs@),
                r.wf(),
                forall|k: Seq<char>|
                    #[trigger] lookup(r@, k) == pairs_lookup(pv.subrange(0, i as int), k),
            decreases pairs@.len() - i,
        {
            let key = pairs[i].0.clone();
            let value = copy_value(&pairs[i].1);
            r.insert(key, value);
            i += 1;
            proof {
                let sub = pv.subrange(0, i as int);
                assert(sub.drop_last() =~= pv.subrange(0, i - 1));
                assert(sub.last() == pv[i - 1]);
            }
        }
        assert(pv.subrange(0, pairs@.len() as int) =~= pv);
        Some(r)
    }
}


// ---------------------------------------------------------------------------
// Settings per package.

/// A valid package name: letters, digits, `.`, `_` and `-`, starting and
/// ending with a letter or digit.
pub open spec fn valid_package_name(s: Seq<char>) -> bool {
    &&& s.len() > 0
    &&& is_ascii_alnum(s[0])
    &&& is_ascii_alnum(s.last())
    &&& forall|i: int|
        0 <= i < s.len() ==> is_ascii_alnum(#[trigger] s[i]) || s[i] == '.' || s[i] == '_' || s[i]
            == '-'
}

/// The normal form of a valid package name: lower case, each run of `.`,
/// `_` and `-` one `-`.
pub open spec fn normalized_package_name(s: Seq<char>) -> Seq<char> {
    dashed(s).0
}

fn is_alnum_exec(c: char) -> (r: bool)
    ensures
        r == is_ascii_alnum(c),
{
    match c {
        '0'..='9' | 'a'..='z' | 'A'..='Z' => true,
        _ => false,
    }
}

/// Normalizes a package name, or says why it is not one.
pub fn normalize_package_name(s: &str) -> (r: Result<String, String>)
    ensures
        r is Ok <==> valid_package_name(s@),
        r matches Ok(n) ==> n@ == normalized_package_name(s@),
{
    let chars = chars_of(s);
    let len = chars.len();
    let mut valid = len > 0;
    let mut i: usize = 0;
    while i < len
        invariant
            len == chars@.len(),
            chars@ == s@,
            i <= len,
            valid == (len > 0 && forall|j: int|
                0 <= j < i ==> is_ascii_alnum(#[trigger] s@[j]) || s@[j] == '.' || s@[j] == '_'
                    || s@[j] == '-'),
        decreases len - i,
    {
        let c = chars[i];
        let alnum = is_alnum_exec(c);
        if !(alnum || c == '.' || c == '_' || c == '-') {
            valid = false;
        }
        i += 1;
    }
    if valid {
        assert(s@.last() == s@[len - 1]);
        valid = is_alnum_exec(chars[0]) && is_alnum_exec(chars[len - 1]);
    }
    if !valid {
        let mut message = String::new();
        push_str(&mut message, "Not a valid package or extra name: \"");
        push_str(&mut message, s);
        push_str(&mut message, "\". Names must start and end with a letter or digit and may only contain -, _, ., and alphanumeric characters.");
        return Err(message);
    }
    let mut out: Vec<char> = Vec::new();
    let mut dash = false;
    let mut k: usize = 0;
    while k < len
        invariant
            len == chars@.len(),
            chars@ == s@,
            k <= len,
            (out@, dash) == dashed(s@.subrange(0, k as int)),
        decreases len - k,
    {
        let c = chars[k];
        assert(s@.subrange(0, k + 1).drop_last() =~= s@.subrange(0, k as int));
        let n = c as u32;
        if (48 <= n && n <= 57) || (65 <= n && n <= 90) || (97 <= n && n <= 122) {
            let lower = if 65 <= n && n <= 90 {
                ((n as u8) + 32) as char
            } else {
                c
            };
            out.push(lower);
            dash = false;
        } else if !dash {
            out.push('-');
            dash = true;
        }
        k += 1;
    }
    assert(s@.subrange(0, len as int) =~= s@);
    Ok(string_of(&out))
}

/// A `PACKAGE:KEY=VALUE` setting for one package.
#[derive(Debug, Clone)]
pub struct ConfigSettingPackageEntry {
    /// The normalized name of the package to apply the setting to.
    pub package: String,
    /// The setting.
    pub setting: ConfigSettingEntry,
}

/// The position of the first `:`.
pub open spec fn first_colon(s: Seq<char>) -> Option<int>
    decreases s.len(),
{
    if s.len() == 0 {
        None
    } else if s[0] == ':' {
        Some(0)
    } else {
        match first_colon(s.drop_first()) {
            Some(i) => Some(i + 1),
            None => None,
        }
    }
}

impl ConfigSettingPackageEntry {
    /// Reads `PACKAGE:KEY=VALUE`: the package name before the first `:`,
    /// trimmed and normalized, and the setting after it.
    pub fn from_str(s: &str) -> (r: Result<ConfigSettingPackageEntry, String>)
        ensures
            r is Ok <==> (first_colon(s@) is Some && valid_package_name(
                trimmed(s@.subrange(0, first_colon(s@)->0)),
            ) && first_eq(s@.subrange(first_colon(s@)->0 + 1, s@.len() as int)) is Some),
            r matches Ok(e) ==> e.package@ == normalized_package_name(
                trimmed(s@.subrange(0, first_colon(s@)->0)),
            ) && ({
                let rest = s@.subrange(first_colon(s@)->0 + 1, s@.len() as int);
                &&& e.setting.key@ == trimmed(rest.subrange(0, first_eq(rest)->0))
                &&& e.setting.value@ == trimmed(rest.subrange(first_eq(rest)->0 + 1, rest.len() as int))
            }),
    {
        let chars = chars_of(s);
        let mut i: usize = 0;
        assert(s@.subrange(0, s@.len() as int) =~= s@);
        while i < chars.len() && chars[i] != ':'
            invariant
                chars@ == s@,
                i <= chars@.len(),
                first_colon(s@) == match first_colon(s@.subrange(i as int, s@.len() as int)) {
                    Some(k) => Some(k + i),
                    None => None,
                },
            decreases chars@.len() - i,
        {
            let ghost rest = s@.subrange(i as int, s@.len() as int);
            assert(rest.drop_first() =~= s@.subrange(i + 1, s@.len() as int));
            i += 1;
        }
        assert(i < chars@.len() ==> s@.subrange(i as int, s@.len() as int)[0] == ':');
        if i == chars.len() {
            assert(s@.subrange(i as int, s@.len() as int).len() == 0);
            let mut message = String::new();
            push_str(&mut message, "Invalid config setting: ");
            push_str(&mut message, s);
            push_str(&mut message, " (expected `PACKAGE:KEY=VALUE`)");
            return Err(message);
        }
        let mut head: Vec<char> = Vec::new();
        let mut j: usize = 0;
        while j < i
            invariant
                chars@ == s@,
                i < chars@.len(),
                j <= i,
                head@ == s@.subrange(0, j as int),
            decreases i - j,
        {
            head.push(chars[j]);
            j += 1;
            assert(head@ =~= s@.subrange(0, j as int));
        }
        let mut tail: Vec<char> = Vec::new();
        let mut k: usize = i + 1;
        while k < chars.len()
            invariant
                chars@ == s@,
                i < chars@.len(),
                i + 1 <= k <= chars@.len(),
                tail@ == s@.subrange(i + 1, k as int),
            decreases chars@.len() - k,
        {
            tail.push(chars[k]);
            k += 1;
            assert(tail@ =~= s@.subrange(i + 1, k as int));
        }
        let head_s = string_of(&head);
        let package = match normalize_package_name(trim(head_s.as_str())) {
            Ok(p) => p,
            Err(e) => {
                let mut message = String::new();
                push_str(&mut message, "Invalid package name: ");
                push_str(&mut message, e.as_str());
                return Err(message);
            },
        };
        let tail_s = string_of(&tail);
        let setting = ConfigSettingEntry::from_str(tail_s.as_str())?;
        Ok(ConfigSettingPackageEntry { package, setting })
    }
}

/// The entries of one package, in order, as key and value.
pub open spec fn package_entries(entries: Seq<ConfigSettingPackageEntry>, p: Seq<char>) -> Seq<
    (Seq<char>, Seq<char>),
>
    decreases entries.len(),
{
    if entries.len() == 0 {
        seq![]
    } else {
        let prev = package_entries(entries.drop_last(), p);
        let e = entries.last();
        if e.package@ == p {
            prev.push((e.setting.key@, e.setting.value@))
        } else {
            prev
        }
    }
}

/// Settings to pass to PEP 517 build backends on a per-package basis.
#[derive(Debug, Clone)]
pub struct PackageConfigSettings {
    packages: Vec<(String, ConfigSettings)>,
}

impl PackageConfigSettings {
    pub closed spec fn names(&self) -> Seq<Seq<char>> {
        self.packages@.map_values(|e: (String, ConfigSettings)| e.0@)
    }

    /// The settings of a package.
    pub closed spec fn settings_of(&self, p: Seq<char>) -> Option<EntriesView> {
        if exists|i: int| 0 <= i < self.packages@.len() && #[trigger] self.packages@[i].0@ == p {
            Some(
                self.packages@[choose|i: int|
                    0 <= i < self.packages@.len() && #[trigger] self.packages@[i].0@ == p].1@,
            )
        } else {
            None
        }
    }

    /// Each package appears once, with well-formed settings.
    pub closed spec fn wf(&self) -> bool {
        &&& forall|i: int, j: int|
            0 <= i < j < self.packages@.len() ==> #[trigger] self.packages@[i].0@
                != #[trigger] self.packages@[j].0@
        &&& forall|i: int| 0 <= i < self.packages@.len() ==> (#[trigger] self.packages@[i]).1.wf()
    }

    pub closed spec fn len_spec(&self) -> nat {
        self.packages@.len()
    }

    proof fn lemma_settings_at(&self, i: int)
        requires
            self.wf(),
            0 <= i < self.packages@.len(),
        ensures
            self.settings_of(self.packages@[i].0@) == Some(self.packages@[i].1@),
    {
        let p = self.packages@[i].0@;
        assert forall|j: int| 0 <= j < self.packages@.len() && #[trigger] self.packages@[j].0@ == p
            implies j == i by {
            if j < i {
                assert(self.packages@[j].0@ != self.packages@[i].0@);
            } else if j > i {
                assert(self.packages@[i].0@ != self.packages@[j].0@);
            }
        }
    }

    fn position(&self, name: &String) -> (r: Option<usize>)
        requires
            self.wf(),
        ensures
            r is None <==> self.settings_of(name@) is None,
            r matches Some(i) ==> i < self.packages@.len() && self.packages@[i as int].0@ == name@,
    {
        let mut i: usize = 0;
        while i < self.packages.len()
            invariant
                i <= self.packages@.len(),
                forall|j: int| 0 <= j < i ==> #[trigger] self.packages@[j].0@ != name@,
            decreases self.packages@.len() - i,
        {
            if self.packages[i].0.eq(name) {
                return Some(i);
            }
            i += 1;
        }
        None
    }

    /// Returns the config settings for a specific package, if any.
    pub fn get(&self, package: &String) -> (r: Option<&ConfigSettings>)
        requires
            self.wf(),
        ensures
            r is None <==> self.settings_of(package@) is None,
            r matches Some(c) ==> c.wf() && self.settings_of(package@) == Some(c@),
    {
        match self.position(package) {
            Some(i) => {
                proof {
                    self.lemma_settings_at(i as int);
                }
                Some(&self.packages[i].1)
            },
            None => None,
        }
    }

    /// Returns `true` if there are no package-specific settings.
    pub fn is_empty(&self) -> (r: bool)
        ensures
            r == (self.len_spec() == 0),
    {
        self.packages.len() == 0
    }

    /// Groups per-package entries: each package gets its entries collected
    /// in order, as [`ConfigSettings::from_entries`] collects them.
    #[verifier::rlimit(40)]
    #[verifier::spinoff_prover]
    pub fn from_entries(entries: Vec<ConfigSettingPackageEntry>) -> (r: PackageConfigSettings)
        ensures
            r.wf(),
            forall|p: Seq<char>|
                #![trigger r.settings_of(p)]
                (r.settings_of(p) is Some <==> package_entries(entries@, p).len() > 0),
            forall|p: Seq<char>, k: Seq<char>|
                #![trigger lookup(r.settings_of(p)->0, k)]
                r.settings_of(p) is Some ==> lookup(r.settings_of(p)->0, k) == collected(
                    package_entries(entries@, p),
                    k,
                ),
    {
        let mut r = PackageConfigSettings { packages: Vec::new() };
        let mut i: usize = 0;
        while i < entries.len()
            invariant
                i <= entries@.len(),
                r.wf(),
                forall|p: Seq<char>|
                    #![trigger r.settings_of(p)]
                    (r.settings_of(p) is Some <==> package_entries(
                        entries@.subrange(0, i as int),
                        p,
                    ).len() > 0),
                forall|p: Seq<char>, k: Seq<char>|
                    #![trigger lookup(r.settings_of(p)->0, k)]
                    r.settings_of(p) is Some ==> lookup(r.settings_of(p)->0, k) == collected(
                        package_entries(entries@.subrange(0, i as int), p),
                        k,
                    ),
            decreases entries@.len() - i,
        {
            let e = &entries[i];
            let ghost sub = entries@.subrange(0, i + 1);
            assert(sub.drop_last() =~= entries@.subrange(0, i as int));
            assert(sub.last() == entries@[i as int]);
            let ghost before = r;
            match r.position(&e.package) {
                Some(j) => {
                    proof {
                        r.lemma_settings_at(j as int);
                    }
                    let mut settings = r.packages[j].1.clone_settings();
                    let ghost s0 = settings@;
                    settings.put(e.setting.key.clone(), ConfigSettingValue::String(e.setting.value.clone()), true);
                    let name = r.packages[j].0.clone();
                    r.packages.set(j, (name, settings));
                    proof {
                        assert forall|a: int, b: int|
                            0 <= a < b < r.packages@.len() implies #[trigger] r.packages@[a].0@
                            != #[trigger] r.packages@[b].0@ by {
                            assert(r.packages@[a].0@ == before.packages@[a].0@);
                            assert(r.packages@[b].0@ == before.packages@[b].0@);
                        }
                        assert forall|a: int| 0 <= a < r.packages@.len() implies (
                        #[trigger] r.packages@[a]).1.wf() by {
                            if a != j {
                                assert(r.packages@[a] == before.packages@[a]);
                            }
                        }
                        r.lemma_settings_at(j as int);
                        assert forall|p: Seq<char>| p != e.package@ implies #[trigger] r.settings_of(p)
                            == before.settings_of(p) by {
                            if exists|a: int| 0 <= a < r.packages@.len() && #[trigger] r.packages@[a].0@ == p {
                                let a = choose|a: int| 0 <= a < r.packages@.len() && #[trigger] r.packages@[a].0@ == p;
                                assert(a != j);
                                assert(r.packages@[a] == before.packages@[a]);
                                r.lemma_settings_at(a);
                                before.lemma_settings_at(a);
                            } else {
                                assert forall|a: int| 0 <= a < before.packages@.len() implies #[trigger] before.packages@[a].0@ != p by {
                                    assert(r.packages@[a].0@ == before.packages@[a].0@);
                                }
                            }
                        }
                        assert forall|p: Seq<char>, k: Seq<char>|
                            #![trigger lookup(r.settings_of(p)->0, k)]
                            r.settings_of(p) is Some implies lookup(r.settings_of(p)->0, k) == collected(
                                package_entries(sub, p),
                                k,
                            ) by {
                            if p == e.package@ {
                                let prev = entries@.subrange(0, i as int);
                                assert(package_entries(sub, p) == package_entries(prev, p).push(
                                    (e.setting.key@, e.setting.value@),
                                ));
                                assert(before.settings_of(p) == Some(s0));
                                assert(r.settings_of(p) == Some(settings@));
                                assert(lookup(before.settings_of(p)->0, k) == collected(
                                    package_entries(prev, p),
                                    k,
                                ));
                                assert(lookup(s0, k) == collected(package_entries(prev, p), k));
                                let pe = package_entries(sub, p);
                                assert(pe.drop_last() =~= package_entries(prev, p));
                                assert(pe.last() == (e.setting.key@, e.setting.value@));
                                assert(lookup(r.settings_of(p)->0, k) == lookup(settings@, k));
                                if k == e.setting.key@ {
                                    match lookup(s0, k) {
                                        Some(ValueView::Str(x)) => {},
                                        Some(ValueView::List(l)) => {},
                                        None => {},
                                    }
                                }
                            } else {
                                let prev = entries@.subrange(0, i as int);
                                assert(package_entries(sub, p) == package_entries(prev, p));
                                assert(r.settings_of(p) == before.settings_of(p));
                                assert(lookup(before.settings_of(p)->0, k) == collected(
                                    package_entries(prev, p),
                                    k,
                                ));
                            }
                        }
                    }
                },
                None => {
                    let first = vec![e.setting.clone_entry()];
                    let ghost first_view = entries_view(first@);
                    assert(first_view =~= seq![(e.setting.key@, e.setting.value@)]);
                    let settings = ConfigSettings::from_entries(first);
                    let name = e.package.clone();
                    r.packages.push((name, settings));
                    proof {
                        let n = before.packages@.len();
                        assert forall|a: int, b: int|
                            0 <= a < b < r.packages@.len() implies #[trigger] r.packages@[a].0@
                            != #[trigger] r.packages@[b].0@ by {
                            if b == n {
                                assert(r.packages@[a] == before.packages@[a]);
                                if r.packages@[a].0@ == e.package@ {
                                    before.lemma_settings_at(a);
                                }
                            } else {
                                assert(r.packages@[a] == before.packages@[a]);
                                assert(r.packages@[b] == before.packages@[b]);
                            }
                        }
                        assert forall|a: int| 0 <= a < r.packages@.len() implies (
                        #[trigger] r.packages@[a]).1.wf() by {
                            if a < n {
                                assert(r.packages@[a] == before.packages@[a]);
                            }
                        }
                        r.lemma_settings_at(n as int);
                        assert forall|p: Seq<char>| p != e.package@ implies #[trigger] r.settings_of(p)
                            == before.settings_of(p) by {
                            if exists|a: int| 0 <= a < r.packages@.len() && #[trigger] r.packages@[a].0@ == p {
                                let a = choose|a: int| 0 <= a < r.packages@.len() && #[trigger] r.packages@[a].0@ == p;
                                assert(a != n);
                                assert(r.packages@[a] == before.packages@[a]);
                                r.lemma_settings_at(a);
                                before.lemma_settings_at(a);
                            } else {
                                assert forall|a: int| 0 <= a < before.packages@.len() implies #[trigger] before.packages@[a].0@ != p by {
                                    assert(r.packages@[a].0@ == before.packages@[a].0@);
                                }
                            }
                        }
                        assert(package_entries(entries@.subrange(0, i as int), e.package@).len() == 0);
                        assert forall|p: Seq<char>, k: Seq<char>|
                            #![trigger lookup(r.settings_of(p)->0, k)]
                            r.settings_of(p) is Some implies lookup(r.settings_of(p)->0, k) == collected(
                                package_entries(sub, p),
                                k,
                            ) by {
                            if p == e.package@ {
                                let prev = entries@.subrange(0, i as int);
                                let pe = package_entries(sub, p);
                                assert(package_entries(prev, p) =~= Seq::<(Seq<char>, Seq<char>)>::empty());
                                assert(pe == package_entries(prev, p).push(
                                    (e.setting.key@, e.setting.value@),
                                ));
                                assert(pe =~= seq![(e.setting.key@, e.setting.value@)]);
                                assert(r.settings_of(p) == Some(settings@));
                                assert(pe.drop_last() =~= Seq::<(Seq<char>, Seq<char>)>::empty());
                                assert(lookup(settings@, k) == collected(first_view, k));
                            } else {
                                let prev = entries@.subrange(0, i as int);
                                assert(package_entries(sub, p) == package_entries(prev, p));
                                assert(r.settings_of(p) == before.settings_of(p));
                                assert(lookup(before.settings_of(p)->0, k) == collected(
                                    package_entries(prev, p),
                                    k,
                                ));
                            }
                        }
                    }
                },
            }
            i += 1;
        }
        assert(entries@.subrange(0, entries@.len() as int) =~= entries@);
        r
    }
}

impl ConfigSettingEntry {
    pub fn clone_entry(&self) -> (r: ConfigSettingEntry)
        ensures
            r.key@ == self.key@,
            r.value@ == self.value@,
    {
        ConfigSettingEntry { key: self.key.clone(), value: self.value.clone() }
    }
}

impl ConfigSettings {
    pub fn clone_settings(&self) -> (r: ConfigSettings)
        ensures
            r@ == self@,
    {
        let mut entries: Vec<(String, ConfigSettingValue)> = Vec::new();
        let mut i: usize = 0;
        while i < self.entries.len()
            invariant
                i <= self.entries@.len(),
                pairs_view(entries@) == pairs_view(self.entries@).subrange(0, i as int),
            decreases self.entries@.len() - i,
        {
            let ghost before = pairs_view(entries@);
            let k = self.entries[i].0.clone();
            let v = copy_value(&self.entries[i].1);
            let ghost kv = k@;
            let ghost vv = v@;
            entries.push((k, v));
            i += 1;
            assert(pairs_view(entries@) =~= before.push((kv, vv)));
            assert(before.push((kv, vv)) =~= pairs_view(self.entries@).subrange(0, i as int));
        }
        assert(pairs_view(self.entries@).subrange(0, self.entries@.len() as int) =~= pairs_view(
            self.entries@,
        ));
        let r = ConfigSettings { entries };
        assert(r@ == pairs_view(entries@));
        r
    }
}


/// The value of a key in settings that may be missing.
pub open spec fn settings_lookup(o: Option<EntriesView>, k: Seq<char>) -> Option<ValueView> {
    match o {
        Some(e) => lookup(e, k),
        None => None,
    }
}

impl PackageConfigSettings {
    /// Merges two sets of per-package settings; where both have a package,
    /// its settings are merged with those of `self` first.
    #[verifier::rlimit(40)]
    #[verifier::spinoff_prover]
    pub fn merge(self, other: PackageConfigSettings) -> (r: PackageConfigSettings)
        requires
            self.wf(),
            other.wf(),
        ensures
            r.wf(),
            forall|p: Seq<char>|
                #![trigger r.settings_of(p)]
                (r.settings_of(p) is Some <==> self.settings_of(p) is Some || other.settings_of(
                    p,
                ) is Some),
            forall|p: Seq<char>, k: Seq<char>|
                #![trigger settings_lookup(r.settings_of(p), k)]
                settings_lookup(r.settings_of(p), k) == merge_values(
                    settings_lookup(self.settings_of(p), k),
                    settings_lookup(other.settings_of(p), k),
                ),
    {
        let ghost left = self;
        let mut r = self;
        let mut i: usize = 0;
        while i < other.packages.len()
            invariant
                i <= other.packages@.len(),
                r.wf(),
                other.wf(),
                left.wf(),
                forall|p: Seq<char>|
                    #![trigger r.settings_of(p)]
                    (r.settings_of(p) is Some <==> left.settings_of(p) is Some || exists|j: int|
                        0 <= j < i && #[trigger] other.packages@[j].0@ == p),
                forall|p: Seq<char>, k: Seq<char>|
                    #![trigger settings_lookup(r.settings_of(p), k)]
                    settings_lookup(r.settings_of(p), k) == if exists|j: int|
                        0 <= j < i && #[trigger] other.packages@[j].0@ == p {
                        merge_values(
                            settings_lookup(left.settings_of(p), k),
                            settings_lookup(other.settings_of(p), k),
                        )
                    } else {
                        settings_lookup(left.settings_of(p), k)
                    },
            decreases other.packages@.len() - i,
        {
            let ghost before = r;
            let name = other.packages[i].0.clone();
            let incoming = other.packages[i].1.clone_settings();
            proof {
                other.lemma_settings_at(i as int);
            }
            let ghost nv = name@;
            let ghost iv = incoming@;
            let ghost fresh = !(exists|j: int| 0 <= j < i && #[trigger] other.packages@[j].0@ == nv);
            assert(fresh) by {
                if exists|j: int| 0 <= j < i && #[trigger] other.packages@[j].0@ == nv {
                    let j = choose|j: int| 0 <= j < i && #[trigger] other.packages@[j].0@ == nv;
                    assert(other.packages@[j].0@ != other.packages@[i as int].0@);
                }
            }
            match r.position(&name) {
                Some(j) => {
                    proof {
                        r.lemma_settings_at(j as int);
                    }
                    let current = r.packages[j].1.clone_settings();
                    let ghost cv = current@;
                    let merged = current.merge(incoming);
                    r.packages.set(j, (name, merged));
                    proof {
                        assert forall|a: int, b: int|
                            0 <= a < b < r.packages@.len() implies #[trigger] r.packages@[a].0@
                            != #[trigger] r.packages@[b].0@ by {
                            assert(r.packages@[a].0@ == before.packages@[a].0@);
                            assert(r.packages@[b].0@ == before.packages@[b].0@);
                        }
                        assert forall|a: int| 0 <= a < r.packages@.len() implies (
                        #[trigger] r.packages@[a]).1.wf() by {
                            if a != j {
                                assert(r.packages@[a] == before.packages@[a]);
                            }
                        }
                        r.lemma_settings_at(j as int);
                        assert forall|p: Seq<char>| p != nv implies #[trigger] r.settings_of(p)
                            == before.settings_of(p) by {
                            if exists|a: int| 0 <= a < r.packages@.len() && #[trigger] r.packages@[a].0@ == p {
                                let a = choose|a: int| 0 <= a < r.packages@.len() && #[trigger] r.packages@[a].0@ == p;
                                assert(a != j);
                                assert(r.packages@[a] == before.packages@[a]);
                                r.lemma_settings_at(a);
                                before.lemma_settings_at(a);
                            } else {
                                assert forall|a: int| 0 <= a < before.packages@.len() implies #[trigger] before.packages@[a].0@ != p by {
                                    assert(r.packages@[a].0@ == before.packages@[a].0@);
                                }
                            }
                        }
                    }
                },
                None => {
                    r.packages.push((name, incoming));
                    proof {
                        let n = before.packages@.len();
                        assert forall|a: int, b: int|
                            0 <= a < b < r.packages@.len() implies #[trigger] r.packages@[a].0@
                            != #[trigger] r.packages@[b].0@ by {
                            if b == n {
                                assert(r.packages@[a] == before.packages@[a]);
                                if r.packages@[a].0@ == nv {
                                    before.lemma_settings_at(a);
                                }
                            } else {
                                assert(r.packages@[a] == before.packages@[a]);
                                assert(r.packages@[b] == before.packages@[b]);
                            }
                        }
                        assert forall|a: int| 0 <= a < r.packages@.len() implies (
                        #[trigger] r.packages@[a]).1.wf() by {
                            if a < n {
                                assert(r.packages@[a] == before.packages@[a]);
                            }
                        }
                        r.lemma_settings_at(n as int);
                        assert forall|p: Seq<char>| p != nv implies #[trigger] r.settings_of(p)
                            == before.settings_of(p) by {
                            if exists|a: int| 0 <= a < r.packages@.len() && #[trigger] r.packages@[a].0@ == p {
                                let a = choose|a: int| 0 <= a < r.packages@.len() && #[trigger] r.packages@[a].0@ == p;
                                assert(a != n);
                                assert(r.packages@[a] == before.packages@[a]);
                                r.lemma_settings_at(a);
                                before.lemma_settings_at(a);
                            } else {
                                assert forall|a: int| 0 <= a < before.packages@.len() implies #[trigger] before.packages@[a].0@ != p by {
                                    assert(r.packages@[a].0@ == before.packages@[a].0@);
                                }
                            }
                        }
                    }
                },
            }
            i += 1;
            proof {
                assert forall|p: Seq<char>|
                    #![trigger r.settings_of(p)]
                    (r.settings_of(p) is Some <==> left.settings_of(p) is Some || exists|j: int|
                        0 <= j < i && #[trigger] other.packages@[j].0@ == p) by {
                    if p == nv {
                        assert(other.packages@[i - 1].0@ == p);
                    } else {
                        if exists|j: int| 0 <= j < i && #[trigger] other.packages@[j].0@ == p {
                            let j = choose|j: int| 0 <= j < i && #[trigger] other.packages@[j].0@ == p;
                            assert(j != i - 1);
                        }
                    }
                }
                assert forall|p: Seq<char>, k: Seq<char>|
                    #![trigger settings_lookup(r.settings_of(p), k)]
                    settings_lookup(r.settings_of(p), k) == if exists|j: int|
                        0 <= j < i && #[trigger] other.packages@[j].0@ == p {
                        merge_values(
                            settings_lookup(left.settings_of(p), k),
                            settings_lookup(other.settings_of(p), k),
                        )
                    } else {
                        settings_lookup(left.settings_of(p), k)
                    } by {
                    if p == nv {
                        assert(other.packages@[i - 1].0@ == p);
                        assert(other.settings_of(p) == Some(iv));
                        assert(settings_lookup(before.settings_of(p), k) == settings_lookup(
                            left.settings_of(p),
                            k,
                        ));
                        match before.settings_of(p) {
                            Some(x) => {},
                            None => {
                                match lookup(iv, k) {
                                    Some(_) => {},
                                    None => {},
                                }
                            },
                        }
                    } else {
                        assert(settings_lookup(before.settings_of(p), k) == if exists|j: int|
                            0 <= j < i - 1 && #[trigger] other.packages@[j].0@ == p {
                            merge_values(
                                settings_lookup(left.settings_of(p), k),
                                settings_lookup(other.settings_of(p), k),
                            )
                        } else {
                            settings_lookup(left.settings_of(p), k)
                        });
                        assert((exists|j: int| 0 <= j < i - 1 && #[trigger] other.packages@[j].0@ == p)
                            == (exists|j: int| 0 <= j < i && #[trigger] other.packages@[j].0@ == p)) by {
                            if exists|j: int| 0 <= j < i && #[trigger] other.packages@[j].0@ == p {
                                let j = choose|j: int| 0 <= j < i && #[trigger] other.packages@[j].0@ == p;
                                assert(j != i - 1);
                            }
                        }
                    }
                }
            }
        }
        proof {
            assert forall|p: Seq<char>|
                #![trigger r.settings_of(p)]
                (r.settings_of(p) is Some <==> left.settings_of(p) is Some || other.settings_of(p) is Some) by {
                if other.settings_of(p) is Some {
                    let j = choose|j: int| 0 <= j < other.packages@.len() && #[trigger] other.packages@[j].0@ == p;
                }
            }
            assert forall|p: Seq<char>, k: Seq<char>|
                #![trigger settings_lookup(r.settings_of(p), k)]
                settings_lookup(r.settings_of(p), k) == merge_values(
                    settings_lookup(left.settings_of(p), k),
                    settings_lookup(other.settings_of(p), k),
                ) by {
                if exists|j: int| 0 <= j < other.packages@.len() && #[trigger] other.packages@[j].0@ == p {
                } else {
                    assert(other.settings_of(p) is None);
                    match settings_lookup(left.settings_of(p), k) {
                        Some(_) => {},
                        None => {},
                    }
                }
            }
        }
        r
    }
}

} // verus!
