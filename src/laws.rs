use vstd::prelude::*;

use crate::json::{has_key, key_index, lemma_key_index, put, value_of, JsonView};
use crate::transform::{
    duplicate_keys, fee_rules, hijacked, hijacked_entries, hijacked_items, lemma_hijacked_entries,
    lemma_hijacked_items, rename_keys, renamed_key, rewrite_keys, Entries, KeyRulesView, RuleMode,
};

verus! {

/// Entry sequences with the same keys at the same places find keys alike.
pub proof fn lemma_same_keys(a: Entries, b: Entries, k: Seq<char>)
    requires
        a.len() == b.len(),
        forall|i: int| 0 <= i < a.len() ==> (#[trigger] a[i]).0 == b[i].0,
    ensures
        key_index(a, k) == key_index(b, k),
    decreases a.len(),
{
    if a.len() > 0 {
        lemma_same_keys(a.drop_last(), b.drop_last(), k);
    }
}

/// After `put(m, k, v)`, `k` holds `v` and every other key is found where it was.
pub proof fn lemma_put(m: Entries, k: Seq<char>, v: JsonView, k2: Seq<char>)
    ensures
        has_key(put(m, k, v), k),
        value_of(put(m, k, v), k) == v,
        k2 != k ==> key_index(put(m, k, v), k2) == key_index(m, k2),
        forall|i: int|
            0 <= i < put(m, k, v).len() ==> (#[trigger] put(m, k, v)[i]) == (k, v) || (0 <= i
                < m.len() && put(m, k, v)[i] == m[i]),
{
    lemma_key_index(m, k);
    let r = put(m, k, v);
    if has_key(m, k) {
        let i = key_index(m, k);
        lemma_same_keys(r, m, k);
        lemma_same_keys(r, m, k2);
    } else {
        assert(r.drop_last() =~= m);
    }
}

/// Putting the value that a key already holds changes nothing.
pub proof fn lemma_put_same(m: Entries, k: Seq<char>)
    requires
        has_key(m, k),
    ensures
        put(m, k, value_of(m, k)) == m,
{
    lemma_key_index(m, k);
    assert(put(m, k, value_of(m, k)) =~= m);
}

/// Keys the duplicate table once holds are held after it.
pub proof fn lemma_duplicate_keeps(m: Entries, pairs: Seq<(Seq<char>, Seq<char>)>, k: Seq<char>)
    requires
        has_key(m, k),
    ensures
        has_key(duplicate_keys(m, pairs), k),
    decreases pairs.len(),
{
    if pairs.len() > 0 {
        let m1 = duplicate_keys(m, pairs.drop_last());
        lemma_duplicate_keeps(m, pairs.drop_last(), k);
        let p = pairs.last();
        if has_key(m1, p.0) {
            lemma_put(m1, p.1, value_of(m1, p.0), k);
        }
    }
}

pub proof fn lemma_fee_table()
    ensures
        fee_rules().pairs.len() == 1,
        fee_rules().pairs.drop_last() == Seq::<(Seq<char>, Seq<char>)>::empty(),
        fee_rules().pairs.last() == ("fee"@, "fees"@),
        "fee"@ != "fees"@,
{
    reveal_strlit("fee");
    reveal_strlit("fees");
    assert(fee_rules().pairs.drop_last() =~= Seq::<(Seq<char>, Seq<char>)>::empty());
    assert("fee"@.len() != "fees"@.len());
}

/// The fee table on an object's entries: `fees` takes the value of `fee`.
pub open spec fn fee_entries(m: Entries) -> Entries {
    if has_key(m, "fee"@) {
        put(m, "fees"@, value_of(m, "fee"@))
    } else {
        m
    }
}

pub proof fn lemma_fee_entries(m: Entries)
    ensures
        duplicate_keys(m, fee_rules().pairs) == fee_entries(m),
{
    lemma_fee_table();
    let pairs = fee_rules().pairs;
    assert(duplicate_keys(m, pairs.drop_last()) == m);
}

/// After the fee table, an object that has `fee` has `fees` with the same value.
pub proof fn lemma_fee_entries_pair(m: Entries)
    requires
        has_key(m, "fee"@),
    ensures
        has_key(fee_entries(m), "fee"@),
        has_key(fee_entries(m), "fees"@),
        value_of(fee_entries(m), "fees"@) == value_of(m, "fee"@),
        value_of(fee_entries(m), "fee"@) == value_of(m, "fee"@),
        forall|k: Seq<char>| has_key(fee_entries(m), k) <==> (has_key(m, k) || k == "fees"@),
{
    lemma_fee_table();
    lemma_put(m, "fees"@, value_of(m, "fee"@), "fee"@);
    lemma_key_index(m, "fee"@);
    lemma_key_index(fee_entries(m), "fee"@);
    let fi = key_index(m, "fee"@);
    assert(fee_entries(m)[fi] == m[fi]);
    assert forall|k: Seq<char>| has_key(fee_entries(m), k) <==> (has_key(m, k) || k == "fees"@) by {
        lemma_put(m, "fees"@, value_of(m, "fee"@), k);
    }
}

/// Applying the fee table to entries that already went through it changes nothing.
pub proof fn lemma_fee_entries_stable(m: Entries)
    ensures
        fee_entries(fee_entries(m)) == fee_entries(m),
{
    if has_key(m, "fee"@) {
        lemma_fee_entries_pair(m);
        lemma_put_same(fee_entries(m), "fees"@);
        assert(value_of(fee_entries(m), "fees"@) == value_of(fee_entries(m), "fee"@));
    }
}

/// Every value in the fee table's result was a value of its input.
pub proof fn lemma_fee_entries_values(m: Entries)
    ensures
        forall|i: int|
            0 <= i < fee_entries(m).len() ==> exists|j: int|
                0 <= j < m.len() && (#[trigger] fee_entries(m)[i]).1 == m[j].1,
{
    if has_key(m, "fee"@) {
        lemma_key_index(m, "fee"@);
        lemma_put(m, "fees"@, value_of(m, "fee"@), "fee"@);
        let fi = key_index(m, "fee"@);
        assert forall|i: int| 0 <= i < fee_entries(m).len() implies exists|j: int|
            0 <= j < m.len() && (#[trigger] fee_entries(m)[i]).1 == m[j].1 by {
            if fee_entries(m)[i].1 == value_of(m, "fee"@) {
                assert(m[fi].1 == fee_entries(m)[i].1);
            } else {
                assert(fee_entries(m)[i] == m[i]);
            }
        }
    } else {
        assert forall|i: int| 0 <= i < fee_entries(m).len() implies exists|j: int|
            0 <= j < m.len() && (#[trigger] fee_entries(m)[i]).1 == m[j].1 by {
            assert(fee_entries(m)[i] == m[i]);
        }
    }
}

/// Adding `fees` beside `fee` is idempotent: transforming a transformed tree
/// gives it back unchanged, at every depth.
pub proof fn lemma_fee_idempotent(v: JsonView)
    ensures
        hijacked(hijacked(v, fee_rules()), fee_rules()) == hijacked(v, fee_rules()),
    decreases v, 1int,
{
    let f = fee_rules();
    match v {
        JsonView::Array(s) => {
            let t = hijacked_items(s, f);
            lemma_hijacked_items(s, f);
            lemma_hijacked_items(t, f);
            assert forall|i: int| 0 <= i < s.len() implies #[trigger] hijacked_items(t, f)[i]
                == t[i] by {
                lemma_fee_idempotent(s[i]);
            }
            assert(hijacked_items(t, f) =~= t);
        },
        JsonView::Object(m) => {
            lemma_fee_idempotent_object(m);
        },
        _ => {},
    }
}

/// The object case of `lemma_fee_idempotent`.
pub proof fn lemma_fee_idempotent_object(m: Entries)
    ensures
        hijacked(hijacked(JsonView::Object(m), fee_rules()), fee_rules()) == hijacked(
            JsonView::Object(m),
            fee_rules(),
        ),
    decreases JsonView::Object(m), 0int,
{
    let f = fee_rules();
    let e = hijacked_entries(m, f);
    lemma_hijacked_entries(m, f);
    lemma_fee_entries(e);
    let n = fee_entries(e);
    lemma_fee_entries_values(e);
    lemma_hijacked_entries(n, f);
    assert forall|i: int| 0 <= i < n.len() implies #[trigger] hijacked_entries(n, f)[i]
        == n[i] by {
        let j = choose|j: int| 0 <= j < e.len() && n[i].1 == e[j].1;
        assert(decreases_to!(JsonView::Object(m) => m));
        assert(decreases_to!(m => m[j]));
        assert(decreases_to!(m[j] => m[j].1));
        lemma_fee_idempotent(m[j].1);
    }
    assert(hijacked_entries(n, f) =~= n);
    lemma_fee_entries(n);
    lemma_fee_entries_stable(e);
}

/// On an object holding `fee`, the fee table leaves both `fee` and `fees`,
/// with the same (transformed) value, and adds no other key; applying it twice
/// gives the same object.
pub proof fn lemma_fee_object(m: Entries)
    requires
        has_key(m, "fee"@),
    ensures
        hijacked(JsonView::Object(m), fee_rules()) matches JsonView::Object(r) && has_key(
            r,
            "fee"@,
        ) && has_key(r, "fees"@) && value_of(r, "fee"@) == value_of(r, "fees"@) && value_of(
            r,
            "fee"@,
        ) == hijacked(value_of(m, "fee"@), fee_rules()) && (forall|k: Seq<char>|
            has_key(r, k) <==> (has_key(m, k) || k == "fees"@)),
        hijacked(hijacked(JsonView::Object(m), fee_rules()), fee_rules()) == hijacked(
            JsonView::Object(m),
            fee_rules(),
        ),
{
    let f = fee_rules();
    let e = hijacked_entries(m, f);
    lemma_hijacked_entries(m, f);
    assert forall|k: Seq<char>| key_index(e, k) == key_index(m, k) by {
        lemma_same_keys(e, m, k);
    }
    lemma_key_index(m, "fee"@);
    lemma_fee_entries(e);
    lemma_fee_entries_pair(e);
    let r = fee_entries(e);
    assert(hijacked(JsonView::Object(m), f) == JsonView::Object(r));
    assert(key_index(e, "fee"@) == key_index(m, "fee"@));
    assert(value_of(e, "fee"@) == hijacked(value_of(m, "fee"@), f));
    assert forall|k: Seq<char>| has_key(r, k) <==> (has_key(m, k) || k == "fees"@) by {
        lemma_same_keys(e, m, k);
        assert(has_key(fee_entries(e), k) <==> (has_key(e, k) || k == "fees"@));
    }
    lemma_fee_idempotent(JsonView::Object(m));
}

/// Arrays keep their length and order; each element is transformed on its own.
pub proof fn lemma_array_shape(s: Seq<JsonView>, rules: KeyRulesView)
    ensures
        hijacked(JsonView::Array(s), rules) matches JsonView::Array(t) && t.len() == s.len() && (
        forall|i: int| 0 <= i < s.len() ==> #[trigger] t[i] == hijacked(s[i], rules)),
{
    lemma_hijacked_items(s, rules);
}

/// Under a duplicate table every key of an object stays a key of the result.
pub proof fn lemma_duplicate_keeps_keys(m: Entries, rules: KeyRulesView)
    requires
        rules.mode == RuleMode::Duplicate,
    ensures
        hijacked(JsonView::Object(m), rules) matches JsonView::Object(r) && (forall|k: Seq<char>|
            has_key(m, k) ==> #[trigger] has_key(r, k)),
{
    let e = hijacked_entries(m, rules);
    lemma_hijacked_entries(m, rules);
    assert forall|k: Seq<char>| has_key(m, k) implies #[trigger] has_key(
        duplicate_keys(e, rules.pairs),
        k,
    ) by {
        lemma_same_keys(e, m, k);
        lemma_duplicate_keeps(e, rules.pairs, k);
    }
}

/// The keys of `rename_keys(m, pairs)` are exactly the renamed keys of `m`.
pub proof fn lemma_rename_keys_keys(m: Entries, pairs: Seq<(Seq<char>, Seq<char>)>)
    ensures
        forall|i: int|
            0 <= i < m.len() ==> has_key(
                rename_keys(m, pairs),
                #[trigger] renamed_key(m[i].0, pairs),
            ),
        forall|k: Seq<char>|
            #[trigger] has_key(rename_keys(m, pairs), k) ==> exists|i: int|
                0 <= i < m.len() && k == renamed_key(m[i].0, pairs),
    decreases m.len(),
{
    if m.len() > 0 {
        let p = m.drop_last();
        let r1 = rename_keys(p, pairs);
        let kl = renamed_key(m.last().0, pairs);
        lemma_rename_keys_keys(p, pairs);
        assert forall|i: int| 0 <= i < m.len() implies has_key(
            rename_keys(m, pairs),
            #[trigger] renamed_key(m[i].0, pairs),
        ) by {
            lemma_put(r1, kl, m.last().1, renamed_key(m[i].0, pairs));
            if i < m.len() - 1 {
                assert(p[i] == m[i]);
            }
        }
        assert forall|k: Seq<char>| #[trigger] has_key(rename_keys(m, pairs), k) implies exists|
            i: int,
        | 0 <= i < m.len() && k == renamed_key(m[i].0, pairs) by {
            lemma_put(r1, kl, m.last().1, k);
            if k != kl {
                assert(has_key(r1, k));
                let i = choose|i: int| 0 <= i < p.len() && k == renamed_key(p[i].0, pairs);
                assert(p[i] == m[i]);
            } else {
                assert(m[m.len() - 1] == m.last());
            }
        }
    }
}

/// The entries with each key renamed, in place.
pub open spec fn renamed_entries(m: Entries, pairs: Seq<(Seq<char>, Seq<char>)>) -> Entries {
    m.map_values(|e: (Seq<char>, JsonView)| (renamed_key(e.0, pairs), e.1))
}

/// Where no two keys of `m` rename to the same key, renaming keeps every
/// entry, in its place, with its value.
pub proof fn lemma_rename_distinct(m: Entries, pairs: Seq<(Seq<char>, Seq<char>)>)
    requires
        forall|i: int, j: int|
            0 <= i < j < m.len() ==> renamed_key(#[trigger] m[i].0, pairs) != renamed_key(
                #[trigger] m[j].0,
                pairs,
            ),
    ensures
        rename_keys(m, pairs) == renamed_entries(m, pairs),
    decreases m.len(),
{
    if m.len() > 0 {
        let p = m.drop_last();
        let kl = renamed_key(m.last().0, pairs);
        assert forall|i: int, j: int| 0 <= i < j < p.len() implies renamed_key(
            #[trigger] p[i].0,
            pairs,
        ) != renamed_key(#[trigger] p[j].0, pairs) by {
            assert(p[i] == m[i] && p[j] == m[j]);
        }
        lemma_rename_distinct(p, pairs);
        lemma_rename_keys_keys(p, pairs);
        if has_key(rename_keys(p, pairs), kl) {
            let i = choose|i: int| 0 <= i < p.len() && kl == renamed_key(p[i].0, pairs);
            assert(p[i] == m[i]);
            assert(m[m.len() - 1] == m.last());
            assert(false);
        }
        assert(rename_keys(m, pairs) =~= renamed_entries(m, pairs));
    }
}

/// Under a rename table, an object whose keys rename to distinct keys keeps
/// every entry in place: matched keys are remapped, others stay, and each
/// value is transformed on its own.
pub proof fn lemma_rename_object(m: Entries, rules: KeyRulesView)
    requires
        rules.mode == RuleMode::Rename,
        forall|i: int, j: int|
            0 <= i < j < m.len() ==> renamed_key(#[trigger] m[i].0, rules.pairs) != renamed_key(
                #[trigger] m[j].0,
                rules.pairs,
            ),
    ensures
        hijacked(JsonView::Object(m), rules) matches JsonView::Object(r) && r.len() == m.len() && (
        forall|i: int|
            0 <= i < m.len() ==> #[trigger] r[i] == (
                renamed_key(m[i].0, rules.pairs),
                hijacked(m[i].1, rules),
            )),
{
    let e = hijacked_entries(m, rules);
    lemma_hijacked_entries(m, rules);
    assert forall|i: int, j: int| 0 <= i < j < e.len() implies renamed_key(
        #[trigger] e[i].0,
        rules.pairs,
    ) != renamed_key(#[trigger] e[j].0, rules.pairs) by {
        assert(e[i].0 == m[i].0 && e[j].0 == m[j].0);
    }
    lemma_rename_distinct(e, rules.pairs);
}

/// Under a rename table every key of the object is remapped and kept, and
/// the result holds no key that is not the remap of one of them.
pub proof fn lemma_rename_keys_remapped(m: Entries, rules: KeyRulesView)
    requires
        rules.mode == RuleMode::Rename,
    ensures
        hijacked(JsonView::Object(m), rules) matches JsonView::Object(r) && (forall|i: int|
            0 <= i < m.len() ==> has_key(r, #[trigger] renamed_key(m[i].0, rules.pairs))) && (
        forall|k: Seq<char>|
            #[trigger] has_key(r, k) ==> exists|i: int|
                0 <= i < m.len() && k == renamed_key(m[i].0, rules.pairs)),
{
    let e = hijacked_entries(m, rules);
    lemma_hijacked_entries(m, rules);
    lemma_rename_keys_keys(e, rules.pairs);
    assert forall|i: int| 0 <= i < m.len() implies has_key(
        rename_keys(e, rules.pairs),
        #[trigger] renamed_key(m[i].0, rules.pairs),
    ) by {
        assert(e[i].0 == m[i].0);
    }
    assert forall|k: Seq<char>| #[trigger] has_key(rename_keys(e, rules.pairs), k) implies exists|
        i: int,
    | 0 <= i < m.len() && k == renamed_key(m[i].0, rules.pairs) by {
        let i = choose|i: int| 0 <= i < e.len() && k == renamed_key(e[i].0, rules.pairs);
        assert(e[i].0 == m[i].0);
    }
}

/// A key that no pair renames stays as it is.
pub proof fn lemma_renamed_unmatched(k: Seq<char>, pairs: Seq<(Seq<char>, Seq<char>)>)
    requires
        forall|j: int| 0 <= j < pairs.len() ==> (#[trigger] pairs[j]).0 != k,
    ensures
        renamed_key(k, pairs) == k,
    decreases pairs.len(),
{
    if pairs.len() > 0 {
        assert(pairs[pairs.len() - 1] == pairs.last());
        lemma_renamed_unmatched(k, pairs.drop_last());
    }
}

/// A duplicate table none of whose sources is present changes nothing.
pub proof fn lemma_duplicate_unmatched(m: Entries, pairs: Seq<(Seq<char>, Seq<char>)>)
    requires
        forall|j: int| 0 <= j < pairs.len() ==> !has_key(m, (#[trigger] pairs[j]).0),
    ensures
        duplicate_keys(m, pairs) == m,
    decreases pairs.len(),
{
    if pairs.len() > 0 {
        assert(pairs[pairs.len() - 1] == pairs.last());
        lemma_duplicate_unmatched(m, pairs.drop_last());
    }
}

/// The transform acts on each object through its own keys alone: an object
/// (with distinct keys) none of whose keys the table names keeps its keys in
/// place, and each value is transformed on its own, whatever matches deeper down.
pub proof fn lemma_unmatched_object(m: Entries, rules: KeyRulesView)
    requires
        forall|i: int, j: int|
            0 <= i < m.len() && 0 <= j < rules.pairs.len() ==> (#[trigger] m[i]).0 != (
            #[trigger] rules.pairs[j]).0,
        forall|i: int, j: int| 0 <= i < j < m.len() ==> (#[trigger] m[i]).0 != (#[trigger] m[j]).0,
    ensures
        hijacked(JsonView::Object(m), rules) == JsonView::Object(hijacked_entries(m, rules)),
        hijacked_entries(m, rules).len() == m.len(),
        forall|i: int|
            0 <= i < m.len() ==> #[trigger] hijacked_entries(m, rules)[i] == (
                m[i].0,
                hijacked(m[i].1, rules),
            ),
{
    let e = hijacked_entries(m, rules);
    lemma_hijacked_entries(m, rules);
    match rules.mode {
        RuleMode::Duplicate => {
            assert forall|j: int| 0 <= j < rules.pairs.len() implies !has_key(
                e,
                (#[trigger] rules.pairs[j]).0,
            ) by {
                lemma_key_index(e, rules.pairs[j].0);
                if has_key(e, rules.pairs[j].0) {
                    let i = key_index(e, rules.pairs[j].0);
                    assert(e[i].0 == m[i].0);
                }
            }
            lemma_duplicate_unmatched(e, rules.pairs);
        },
        RuleMode::Rename => {
            assert forall|i: int| 0 <= i < e.len() implies renamed_key(
                #[trigger] e[i].0,
                rules.pairs,
            ) == e[i].0 by {
                assert forall|j: int| 0 <= j < rules.pairs.len() implies (
                #[trigger] rules.pairs[j]).0 != e[i].0 by {
                    assert(m[i].0 != rules.pairs[j].0);
                }
                lemma_renamed_unmatched(e[i].0, rules.pairs);
            }
            assert forall|i: int, j: int| 0 <= i < j < e.len() implies renamed_key(
                #[trigger] e[i].0,
                rules.pairs,
            ) != renamed_key(#[trigger] e[j].0, rules.pairs) by {
                assert(m[i].0 != m[j].0);
            }
            lemma_rename_distinct(e, rules.pairs);
            assert(renamed_entries(e, rules.pairs) =~= e);
        },
    }
}

/// Transforming the values commutes with map insertion.
pub proof fn lemma_hijacked_put(m: Entries, k: Seq<char>, v: JsonView, rules: KeyRulesView)
    ensures
        hijacked_entries(put(m, k, v), rules) == put(
            hijacked_entries(m, rules),
            k,
            hijacked(v, rules),
        ),
{
    let e = hijacked_entries(m, rules);
    let p = put(m, k, v);
    lemma_hijacked_entries(m, rules);
    lemma_hijacked_entries(p, rules);
    lemma_same_keys(e, m, k);
    lemma_key_index(m, k);
    assert(hijacked_entries(p, rules) =~= put(e, k, hijacked(v, rules)));
}

/// Transforming the values commutes with the duplicate table.
pub proof fn lemma_hijacked_duplicate(
    m: Entries,
    pairs: Seq<(Seq<char>, Seq<char>)>,
    rules: KeyRulesView,
)
    ensures
        hijacked_entries(duplicate_keys(m, pairs), rules) == duplicate_keys(
            hijacked_entries(m, rules),
            pairs,
        ),
    decreases pairs.len(),
{
    if pairs.len() > 0 {
        let m1 = duplicate_keys(m, pairs.drop_last());
        lemma_hijacked_duplicate(m, pairs.drop_last(), rules);
        let e1 = hijacked_entries(m1, rules);
        let p = pairs.last();
        lemma_hijacked_entries(m1, rules);
        lemma_same_keys(e1, m1, p.0);
        lemma_key_index(m1, p.0);
        if has_key(m1, p.0) {
            lemma_hijacked_put(m1, p.1, value_of(m1, p.0), rules);
        }
    }
}

/// Transforming the values commutes with the rename table.
pub proof fn lemma_hijacked_rename(
    m: Entries,
    pairs: Seq<(Seq<char>, Seq<char>)>,
    rules: KeyRulesView,
)
    ensures
        hijacked_entries(rename_keys(m, pairs), rules) == rename_keys(
            hijacked_entries(m, rules),
            pairs,
        ),
    decreases m.len(),
{
    if m.len() > 0 {
        let d = m.drop_last();
        lemma_hijacked_rename(d, pairs, rules);
        let e = hijacked_entries(m, rules);
        assert(d =~= m.subrange(0, m.len() - 1));
        assert(e.drop_last() =~= hijacked_entries(d, rules));
        lemma_hijacked_put(rename_keys(d, pairs), renamed_key(m.last().0, pairs), m.last().1, rules);
    }
}

/// Rewriting an object's keys before transforming its values, as a
/// depth-first walk does, gives the same tree as the transform.
pub proof fn lemma_keys_first(m: Entries, rules: KeyRulesView)
    ensures
        hijacked(JsonView::Object(m), rules) == JsonView::Object(
            hijacked_entries(rewrite_keys(m, rules), rules),
        ),
{
    match rules.mode {
        RuleMode::Duplicate => lemma_hijacked_duplicate(m, rules.pairs, rules),
        RuleMode::Rename => lemma_hijacked_rename(m, rules.pairs, rules),
    }
}

} // verus!
