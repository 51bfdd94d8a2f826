use vstd::prelude::*;

use crate::json::{
    entries_view, find_key, has_key, items_view, json_view, lemma_entries_view, lemma_items_view,
    lemma_key_index, put, put_entry, value_of, Json, JsonView,
};

verus! {

/// How a table of key pairs `(from, to)` acts on an object.
#[derive(PartialEq, Eq, Structural, Clone, Copy, Debug)]
pub enum RuleMode {
    /// Where `from` is present, `to` is added with the same value; nothing is removed.
    Duplicate,
    /// A key equal to some `from` is replaced by its `to`; other keys stay.
    Rename,
}

/// A key rewrite table, fixed for a deployment.
#[derive(Clone, Debug, PartialEq, Eq)]
pub struct KeyRules {
    pub mode: RuleMode,
    pub pairs: Vec<(String, String)>,
}

pub struct KeyRulesView {
    pub mode: RuleMode,
    pub pairs: Seq<(Seq<char>, Seq<char>)>,
}

pub open spec fn pairs_view(p: Seq<(String, String)>) -> Seq<(Seq<char>, Seq<char>)> {
    p.map_values(|q: (String, String)| (q.0@, q.1@))
}

impl View for KeyRules {
    type V = KeyRulesView;

    open spec fn view(&self) -> KeyRulesView {
        KeyRulesView { mode: self.mode, pairs: pairs_view(self.pairs@) }
    }
}

pub type Entries = Seq<(Seq<char>, JsonView)>;

/// Applies each duplicate pair in table order.
pub open spec fn duplicate_keys(m: Entries, pairs: Seq<(Seq<char>, Seq<char>)>) -> Entries
    decreases pairs.len(),
{
    if pairs.len() == 0 {
        m
    } else {
        let m1 = duplicate_keys(m, pairs.drop_last());
        let p = pairs.last();
        if has_key(m1, p.0) {
            put(m1, p.1, value_of(m1, p.0))
        } else {
            m1
        }
    }
}

/// The key that `k` becomes under a rename table (the last matching pair wins).
pub open spec fn renamed_key(k: Seq<char>, pairs: Seq<(Seq<char>, Seq<char>)>) -> Seq<char>
    decreases pairs.len(),
{
    if pairs.len() == 0 {
        k
    } else if pairs.last().0 == k {
        pairs.last().1
    } else {
        renamed_key(k, pairs.drop_last())
    }
}

/// The entries with renamed keys, collected in order as a map collects them.
pub open spec fn rename_keys(m: Entries, pairs: Seq<(Seq<char>, Seq<char>)>) -> Entries
    decreases m.len(),
{
    if m.len() == 0 {
        Seq::empty()
    } else {
        put(rename_keys(m.drop_last(), pairs), renamed_key(m.last().0, pairs), m.last().1)
    }
}

pub open spec fn rewrite_keys(m: Entries, rules: KeyRulesView) -> Entries {
    match rules.mode {
        RuleMode::Duplicate => duplicate_keys(m, rules.pairs),
        RuleMode::Rename => rename_keys(m, rules.pairs),
    }
}

/// The whole-tree transform: arrays element by element, objects value by
/// value with their keys rewritten, leaves unchanged. Rewriting keys looks at
/// keys alone, so rewriting before or after transforming the values gives the
/// same tree (`crate::laws::lemma_keys_first`).
pub open spec fn hijacked(v: JsonView, rules: KeyRulesView) -> JsonView
    decreases v,
{
    match v {
        JsonView::Array(s) => JsonView::Array(hijacked_items(s, rules)),
        JsonView::Object(m) => JsonView::Object(rewrite_keys(hijacked_entries(m, rules), rules)),
        _ => v,
    }
}

pub open spec fn hijacked_items(s: Seq<JsonView>, rules: KeyRulesView) -> Seq<JsonView>
    decreases s,
{
    if s.len() == 0 {
        Seq::empty()
    } else {
        hijacked_items(s.subrange(0, s.len() - 1), rules).push(hijacked(s[s.len() - 1], rules))
    }
}

pub open spec fn hijacked_entries(m: Entries, rules: KeyRulesView) -> Entries
    decreases m,
{
    if m.len() == 0 {
        Seq::empty()
    } else {
        hijacked_entries(m.subrange(0, m.len() - 1), rules).push(
            (m[m.len() - 1].0, hijacked(m[m.len() - 1].1, rules)),
        )
    }
}

pub proof fn lemma_hijacked_items(s: Seq<JsonView>, rules: KeyRulesView)
    ensures
        hijacked_items(s, rules).len() == s.len(),
        forall|i: int|
            0 <= i < s.len() ==> #[trigger] hijacked_items(s, rules)[i] == hijacked(s[i], rules),
    decreases s.len(),
{
    if s.len() > 0 {
        let p = s.subrange(0, s.len() - 1);
        lemma_hijacked_items(p, rules);
        assert forall|i: int| 0 <= i < s.len() implies #[trigger] hijacked_items(s, rules)[i]
            == hijacked(s[i], rules) by {
            if i < s.len() - 1 {
                assert(p[i] == s[i]);
            }
        }
    }
}

pub proof fn lemma_hijacked_entries(m: Entries, rules: KeyRulesView)
    ensures
        hijacked_entries(m, rules).len() == m.len(),
        forall|i: int|
            0 <= i < m.len() ==> #[trigger] hijacked_entries(m, rules)[i] == (
                m[i].0,
                hijacked(m[i].1, rules),
            ),
    decreases m.len(),
{
    if m.len() > 0 {
        let p = m.subrange(0, m.len() - 1);
        lemma_hijacked_entries(p, rules);
        assert forall|i: int| 0 <= i < m.len() implies #[trigger] hijacked_entries(m, rules)[i]
            == (m[i].0, hijacked(m[i].1, rules)) by {
            if i < m.len() - 1 {
                assert(p[i] == m[i]);
            }
        }
    }
}

/// The key `key` becomes under the rename table `pairs`.
pub fn rename_key(key: String, pairs: &Vec<(String, String)>) -> (r: String)
    ensures
        r@ == renamed_key(key@, pairs_view(pairs@)),
{
    let ghost pv = pairs_view(pairs@);
    assert(pv.take(pairs.len() as int) =~= pv);
    let mut j: usize = pairs.len();
    while j > 0
        invariant
            j <= pairs.len(),
            pv == pairs_view(pairs@),
            renamed_key(key@, pv) == renamed_key(key@, pv.take(j as int)),
        decreases j,
    {
        assert(pv.take(j as int).drop_last() =~= pv.take(j - 1));
        j = j - 1;
        if pairs[j].0 == key {
            return pairs[j].1.clone();
        }
    }
    key
}

/// Adds, for each pair of the table in order, the `to` key with the value of
/// the `from` key, where `from` is present.
pub fn duplicate_entries(entries: &mut Vec<(String, Json)>, pairs: &Vec<(String, String)>)
    ensures
        entries_view(final(entries)@) == duplicate_keys(
            entries_view(old(entries)@),
            pairs_view(pairs@),
        ),
{
    let ghost m0 = entries_view(entries@);
    let ghost pv = pairs_view(pairs@);
    let mut j: usize = 0;
    while j < pairs.len()
        invariant
            j <= pairs.len(),
            pv == pairs_view(pairs@),
            entries_view(entries@) == duplicate_keys(m0, pv.take(j as int)),
        decreases pairs.len() - j,
    {
        assert(pv.take(j + 1).drop_last() =~= pv.take(j as int));
        proof {
            lemma_entries_view(entries@);
            lemma_key_index(entries_view(entries@), pairs@[j as int].0@);
        }
        match find_key(entries, &pairs[j].0) {
            Some(i) => {
                let val = entries[i].1.copy();
                put_entry(entries, pairs[j].1.clone(), val);
            },
            None => {},
        }
        j = j + 1;
    }
    assert(pv.take(pairs.len() as int) =~= pv);
}

/// Rebuilds the object with every key renamed under the table.
pub fn rename_entries(entries: Vec<(String, Json)>, pairs: &Vec<(String, String)>) -> (r: Vec<
    (String, Json),
>)
    ensures
        entries_view(r@) == rename_keys(entries_view(entries@), pairs_view(pairs@)),
{
    let ghost e0 = entries@;
    let ghost m0 = entries_view(entries@);
    proof {
        lemma_entries_view(entries@);
    }
    let mut entries = entries;
    let mut out: Vec<(String, Json)> = Vec::new();
    let mut i: usize = 0;
    while i < entries.len()
        invariant
            i <= entries.len(),
            entries@.len() == e0.len(),
            m0 == entries_view(e0),
            m0.len() == e0.len(),
            forall|j: int| 0 <= j < m0.len() ==> #[trigger] m0[j] == (e0[j].0@, json_view(e0[j].1)),
            forall|j: int| i <= j < e0.len() ==> #[trigger] entries@[j] == e0[j],
            entries_view(out@) == rename_keys(m0.take(i as int), pairs_view(pairs@)),
        decreases entries.len() - i,
    {
        let mut e = (String::new(), Json::Null);
        std::mem::swap(&mut e, &mut entries[i]);
        let (k, val) = e;
        let nk = rename_key(k, pairs);
        assert(m0.take(i + 1).drop_last() =~= m0.take(i as int));
        put_entry(&mut out, nk, val);
        i = i + 1;
    }
    assert(m0.take(i as int) =~= m0);
    out
}

/// Applies the key rewrite table to the object's own entries.
pub fn rewrite_entries(entries: Vec<(String, Json)>, rules: &KeyRules) -> (r: Vec<
    (String, Json),
>)
    ensures
        entries_view(r@) == rewrite_keys(entries_view(entries@), rules@),
{
    match rules.mode {
        RuleMode::Duplicate => {
            let mut entries = entries;
            duplicate_entries(&mut entries, &rules.pairs);
            entries
        },
        RuleMode::Rename => rename_entries(entries, &rules.pairs),
    }
}

/// Rewrites the keys of every object of the tree under the table, at every
/// depth; array order and all other values are kept.
#[verifier::loop_isolation(false)]
pub fn hijack(v: Json, rules: &KeyRules) -> (r: Json)
    ensures
        r@ == hijacked(v@, rules@),
    decreases v,
{
    let ghost v0 = v;
    match v {
        Json::Array(items) => {
            let ghost s0 = items@;
            let mut items = items;
            let mut i: usize = 0;
            while i < items.len()
                invariant
                    i <= items.len(),
                    items@.len() == s0.len(),
                    v0 == Json::Array(v0->Array_0),
                    v0->Array_0@ == s0,
                    forall|j: int| i <= j < s0.len() ==> #[trigger] items@[j] == s0[j],
                    forall|j: int|
                        0 <= j < i ==> json_view(#[trigger] items@[j]) == hijacked(
                            json_view(s0[j]),
                            rules@,
                        ),
                decreases items.len() - i,
            {
                let mut x = Json::Null;
                std::mem::swap(&mut x, &mut items[i]);
                proof {
                    assert(decreases_to!(v0 => v0->Array_0));
                    assert(decreases_to!(v0->Array_0 => v0->Array_0@));
                    assert(decreases_to!(v0->Array_0@ => s0[i as int]));
                }
                let y = hijack(x, rules);
                items.set(i, y);
                i = i + 1;
            }
            proof {
                lemma_items_view(items@);
                lemma_items_view(s0);
                lemma_hijacked_items(items_view(s0), rules@);
                assert(items_view(items@) =~= hijacked_items(items_view(s0), rules@));
            }
            Json::Array(items)
        },
        Json::Object(entries) => {
            let ghost e0 = entries@;
            let mut entries = entries;
            let mut i: usize = 0;
            while i < entries.len()
                invariant
                    i <= entries.len(),
                    entries@.len() == e0.len(),
                    v0 == Json::Object(v0->Object_0),
                    v0->Object_0@ == e0,
                    forall|j: int| i <= j < e0.len() ==> #[trigger] entries@[j] == e0[j],
                    forall|j: int|
                        0 <= j < i ==> (#[trigger] entries@[j]).0@ == e0[j].0@ && json_view(
                            entries@[j].1,
                        ) == hijacked(json_view(e0[j].1), rules@),
                decreases entries.len() - i,
            {
                let mut e = (String::new(), Json::Null);
                std::mem::swap(&mut e, &mut entries[i]);
                let (k, x) = e;
                proof {
                    assert(decreases_to!(v0 => v0->Object_0));
                    assert(decreases_to!(v0->Object_0 => v0->Object_0@));
                    assert(decreases_to!(v0->Object_0@ => e0[i as int]));
                    assert(decreases_to!(e0[i as int] => e0[i as int].1));
                }
                let y = hijack(x, rules);
                entries.set(i, (k, y));
                i = i + 1;
            }
            proof {
                lemma_entries_view(entries@);
                lemma_entries_view(e0);
                lemma_hijacked_entries(entries_view(e0), rules@);
                assert(entries_view(entries@) =~= hijacked_entries(entries_view(e0), rules@));
            }
            Json::Object(rewrite_entries(entries, rules))
        },
        other => other,
    }
}

/// The table that adds `fees` beside `fee`.
pub open spec fn fee_rules() -> KeyRulesView {
    KeyRulesView { mode: RuleMode::Duplicate, pairs: seq![("fee"@, "fees"@)] }
}

/// The plural-to-singular rename table.
pub open spec fn singular_rules() -> KeyRulesView {
    KeyRulesView {
        mode: RuleMode::Rename,
        pairs: seq![("fees"@, "fee"@), ("deposits"@, "deposit"@), ("rewards"@, "reward"@)],
    }
}

/// The singular-to-plural rename table.
pub open spec fn plural_rules() -> KeyRulesView {
    KeyRulesView {
        mode: RuleMode::Rename,
        pairs: seq![("fee"@, "fees"@), ("deposit"@, "deposits"@), ("reward"@, "rewards"@)],
    }
}

fn key_pair(from: &str, to: &str) -> (r: (String, String))
    ensures
        r.0@ == from@,
        r.1@ == to@,
{
    (from.to_owned(), to.to_owned())
}

impl KeyRules {
    pub fn duplicate_fee() -> (r: KeyRules)
        ensures
            r@ == fee_rules(),
    {
        let mut pairs: Vec<(String, String)> = Vec::new();
        pairs.push(key_pair("fee", "fees"));
        let r = KeyRules { mode: RuleMode::Duplicate, pairs };
        assert(r@.pairs =~= fee_rules().pairs);
        r
    }

    pub fn plural_to_singular() -> (r: KeyRules)
        ensures
            r@ == singular_rules(),
    {
        let mut pairs: Vec<(String, String)> = Vec::new();
        pairs.push(key_pair("fees", "fee"));
        pairs.push(key_pair("deposits", "deposit"));
        pairs.push(key_pair("rewards", "reward"));
        let r = KeyRules { mode: RuleMode::Rename, pairs };
        assert(r@.pairs =~= singular_rules().pairs);
        r
    }

    pub fn singular_to_plural() -> (r: KeyRules)
        ensures
            r@ == plural_rules(),
    {
        let mut pairs: Vec<(String, String)> = Vec::new();
        pairs.push(key_pair("fee", "fees"));
        pairs.push(key_pair("deposit", "deposits"));
        pairs.push(key_pair("reward", "rewards"));
        let r = KeyRules { mode: RuleMode::Rename, pairs };
        assert(r@.pairs =~= plural_rules().pairs);
        r
    }
}

} // verus!
