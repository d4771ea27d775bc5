//! Preset rules that do not touch the disk: default key bindings, the
//! clean-up of key bindings read from a preset, and the recent-presets list.

use vstd::prelude::*;
use crate::hotkeys::{
    allowed_keys, allowed_modifiers, all_allowed, assemble, hotkey_parts, in_order, is_bindable, is_valid_hotkey,
    key_of, modifiers_alphabetical, normalize_sorted, normalize_sorted_exec, reserved_hotkeys,
};
use crate::text::{
    append_chars, chars_eq, chars_of, is_ascii_char, is_ascii_upper, is_ws, join, lowercase, split_on, string_of, trim,
    trim_chars, trim_end, trim_start,
};
use crate::validation::assigned_to;

verus! {

/// Maximum number of recent presets kept.
pub const MAX_RECENT_PRESETS: usize = 10;

/// The default bindings, by action in alphabetical order.
pub open spec fn default_bindings() -> Seq<(Seq<char>, Seq<char>)> {
    seq![
        ("base_speed_down"@, "shift+x"@),
        ("base_speed_up"@, "shift+z"@),
        ("debug_console"@, "alt+d"@),
        ("interrupt_audio"@, "delete"@),
        ("open_settings"@, "alt+'"@),
        ("overlap_speed_down"@, "shift+v"@),
        ("overlap_speed_up"@, "shift+c"@),
        ("test_sound"@, "insert"@),
        ("toggle_areas"@, "alt+2"@),
        ("toggle_reader"@, "home"@),
        ("volume_down"@, "page_down"@),
        ("volume_up"@, "page_up"@),
    ]
}

pub open spec fn pair_views(kb: Seq<(String, String)>) -> Seq<(Seq<char>, Seq<char>)> {
    kb.map_values(|b: (String, String)| (b.0@, b.1@))
}

pub open spec fn string_views(v: Seq<String>) -> Seq<Seq<char>> {
    v.map_values(|s: String| s@)
}

spec fn char_pair_views(v: Seq<(Vec<char>, Vec<char>)>) -> Seq<(Seq<char>, Seq<char>)> {
    v.map_values(|p: (Vec<char>, Vec<char>)| (p.0@, p.1@))
}

proof fn lemma_char_pair_views_push(s: Seq<(Vec<char>, Vec<char>)>, x: (Vec<char>, Vec<char>))
    ensures
        char_pair_views(s.push(x)) == char_pair_views(s).push((x.0@, x.1@)),
{
    assert(char_pair_views(s.push(x)) =~= char_pair_views(s).push((x.0@, x.1@)));
}

proof fn lemma_pair_views_push(s: Seq<(String, String)>, x: (String, String))
    ensures
        pair_views(s.push(x)) == pair_views(s).push((x.0@, x.1@)),
{
    assert(pair_views(s.push(x)) =~= pair_views(s).push((x.0@, x.1@)));
}

proof fn lemma_string_views_push(s: Seq<String>, x: String)
    ensures
        string_views(s.push(x)) == string_views(s).push(x@),
{
    assert(string_views(s.push(x)) =~= string_views(s).push(x@));
}

fn default_pairs() -> (v: Vec<(Vec<char>, Vec<char>)>)
    ensures
        char_pair_views(v@) == default_bindings(),
{
    let actions = [
        "base_speed_down", "base_speed_up", "debug_console", "interrupt_audio", "open_settings",
        "overlap_speed_down", "overlap_speed_up", "test_sound", "toggle_areas", "toggle_reader",
        "volume_down", "volume_up",
    ];
    let keys = [
        "shift+x", "shift+z", "alt+d", "delete", "alt+'", "shift+v", "shift+c", "insert", "alt+2",
        "home", "page_down", "page_up",
    ];
    let ghost d = default_bindings();
    assert forall|k: int| 0 <= k < 12 implies (#[trigger] d[k]).0 == actions@[k]@ && d[k].1 == keys@[k]@ by {}
    let mut v: Vec<(Vec<char>, Vec<char>)> = Vec::new();
    let mut i: usize = 0;
    while i < 12
        invariant
            i <= 12,
            actions@.len() == 12,
            keys@.len() == 12,
            d == default_bindings(),
            d.len() == 12,
            forall|k: int| 0 <= k < 12 ==> (#[trigger] d[k]).0 == actions@[k]@ && d[k].1 == keys@[k]@,
            char_pair_views(v@) == d.take(i as int),
        decreases 12 - i,
    {
        let ghost before = v@;
        let entry = (chars_of(actions[i]), chars_of(keys[i]));
        let ghost ev = (entry.0@, entry.1@);
        v.push(entry);
        proof {
            lemma_char_pair_views_push(before, v@[before.len() as int]);
            assert(v@ == before.push(v@[before.len() as int]));
            assert(ev == d[i as int]);
            assert(d.take(i + 1) =~= d.take(i as int).push(d[i as int]));
        }
        i += 1;
    }
    assert(d.take(12) =~= d);
    v
}

/// The default key bindings (action, hotkey), by action in alphabetical order.
pub fn default_key_bindings() -> (v: Vec<(String, String)>)
    ensures
        pair_views(v@) == default_bindings(),
{
    let d = default_pairs();
    let ghost dv = char_pair_views(d@);
    let mut out: Vec<(String, String)> = Vec::new();
    let mut i: usize = 0;
    while i < d.len()
        invariant
            i <= d@.len(),
            dv == char_pair_views(d@),
            pair_views(out@) == dv.take(i as int),
        decreases d@.len() - i,
    {
        let ghost before = out@;
        let entry = (string_of(d[i].0.as_slice()), string_of(d[i].1.as_slice()));
        out.push(entry);
        proof {
            lemma_pair_views_push(before, out@[before.len() as int]);
            assert(out@ == before.push(out@[before.len() as int]));
            assert(dv[i as int] == (d@[i as int].0@, d@[i as int].1@));
            assert(dv.take(i + 1) =~= dv.take(i as int).push(dv[i as int]));
        }
        i += 1;
    }
    assert(dv.take(d@.len() as int) =~= dv);
    out
}

// ---------------------------------------------------------------------------
// The default bindings are bindable
// ---------------------------------------------------------------------------

/// Lower-case ASCII without `+` or whitespace, and not empty.
spec fn plain(s: Seq<char>) -> bool {
    &&& s.len() > 0
    &&& forall|i: int| 0 <= i < s.len() ==> {
        &&& is_ascii_char(#[trigger] s[i])
        &&& !is_ascii_upper(s[i])
        &&& s[i] != '+'
        &&& !is_ws(s[i])
    }
}

proof fn lemma_plain_lowercase(s: Seq<char>)
    requires
        forall|i: int| 0 <= i < s.len() ==> is_ascii_char(#[trigger] s[i]) && !is_ascii_upper(s[i]),
    ensures
        lowercase(s) == s,
{
    assert(lowercase(s) =~= s);
}

proof fn lemma_split_without_sep(s: Seq<char>)
    requires
        forall|i: int| 0 <= i < s.len() ==> #[trigger] s[i] != '+',
    ensures
        split_on(s, seq!['+']) == seq![s],
    decreases s.len(),
{
    if s.len() > 0 {
        lemma_split_without_sep(s.drop_last());
        assert(!seq!['+'].contains(s.last())) by {
            if seq!['+'].contains(s.last()) {
                let k = choose|k: int| 0 <= k < 1 && seq!['+'][k] == s.last();
                assert(k == 0);
            }
        }
        assert(s.drop_last().push(s.last()) =~= s);
        assert(seq![s.drop_last()].update(0, s.drop_last().push(s.last())) =~= seq![s]);
    } else {
        assert(s =~= Seq::<char>::empty());
    }
}

proof fn lemma_split_pair(a: Seq<char>, b: Seq<char>)
    requires
        forall|i: int| 0 <= i < a.len() ==> #[trigger] a[i] != '+',
        forall|i: int| 0 <= i < b.len() ==> #[trigger] b[i] != '+',
    ensures
        split_on(a + seq!['+'] + b, seq!['+']) == seq![a, b],
    decreases b.len(),
{
    let s = a + seq!['+'] + b;
    if b.len() == 0 {
        lemma_split_without_sep(a);
        assert(s.drop_last() =~= a);
        assert(seq!['+'].contains(s.last())) by {
            assert(seq!['+'][0] == '+');
        }
        assert(b =~= Seq::<char>::empty());
        assert(seq![a].push(Seq::<char>::empty()) =~= seq![a, b]);
    } else {
        lemma_split_pair(a, b.drop_last());
        assert(s.drop_last() =~= a + seq!['+'] + b.drop_last());
        assert(!seq!['+'].contains(s.last())) by {
            if seq!['+'].contains(s.last()) {
                let k = choose|k: int| 0 <= k < 1 && seq!['+'][k] == s.last();
                assert(k == 0);
            }
        }
        assert(b.drop_last().push(b.last()) =~= b);
        assert(seq![a, b.drop_last()].update(1, b.drop_last().push(b.last())) =~= seq![a, b]);
    }
}

proof fn lemma_trim_plain(s: Seq<char>)
    requires
        s.len() > 0,
        forall|i: int| 0 <= i < s.len() ==> !is_ws(#[trigger] s[i]),
    ensures
        trim(s) == s,
{
    assert(trim_start(s) == s);
    assert(trim_end(s) == s);
}

/// A plain whitelisted key that is not reserved normalizes to itself and is bindable.
proof fn lemma_key_bindable(k: Seq<char>)
    requires
        plain(k),
        allowed_keys().contains(k),
        !reserved_hotkeys().contains(k),
    ensures
        normalize_sorted(k) == Some(k),
        is_bindable(k),
{
    lemma_plain_lowercase(k);
    lemma_split_without_sep(k);
    lemma_trim_plain(k);
    let parts = hotkey_parts(k);
    assert(parts =~= seq![k]);
    assert(parts.drop_last() =~= Seq::<Seq<char>>::empty());
    let none = in_order(parts.drop_last(), modifiers_alphabetical());
    reveal(Seq::filter);
    assert(none =~= Seq::<Seq<char>>::empty()) by {
        assert(modifiers_alphabetical().len() == 3);
        reveal_with_fuel(Seq::filter, 4);
    }
    assert(join(none, seq!['+']) =~= Seq::<char>::empty());
    assert(assemble(none, k) == k);
    lemma_split_without_sep(k);
    assert(key_of(k) == k);
}

/// `m+k`, with a plain modifier and a plain whitelisted key, normalizes to
/// itself and (when not reserved) is bindable.
proof fn lemma_combo_bindable(m: Seq<char>, k: Seq<char>, mi: int)
    requires
        plain(m),
        plain(k),
        0 <= mi < 3,
        modifiers_alphabetical()[mi] == m,
        allowed_keys().contains(k),
        !reserved_hotkeys().contains(m + seq!['+'] + k),
    ensures
        normalize_sorted(m + seq!['+'] + k) == Some(m + seq!['+'] + k),
        is_bindable(m + seq!['+'] + k),
{
    let s = m + seq!['+'] + k;
    assert forall|i: int| 0 <= i < s.len() implies is_ascii_char(#[trigger] s[i]) && !is_ascii_upper(s[i]) by {
        if i < m.len() {
            assert(s[i] == m[i]);
        } else if i > m.len() {
            assert(s[i] == k[i - m.len() - 1]);
        }
    }
    lemma_plain_lowercase(s);
    lemma_split_pair(m, k);
    lemma_trim_plain(m);
    lemma_trim_plain(k);
    let parts = hotkey_parts(s);
    assert(parts =~= seq![m, k]);
    assert(parts.drop_last() =~= seq![m]);
    assert(all_allowed(seq![m])) by {
        assert(allowed_modifiers() =~= seq![modifiers_alphabetical()[1], modifiers_alphabetical()[0], modifiers_alphabetical()[2]]);
        assert(allowed_modifiers().contains(m)) by {
            if mi == 0 { assert(allowed_modifiers()[1] == m); }
            else if mi == 1 { assert(allowed_modifiers()[0] == m); }
            else { assert(allowed_modifiers()[2] == m); }
        }
    }
    assert(trim(s).len() > 0) by {
        assert(trim_start(s) == s) by { assert(!is_ws(s[0])) by { assert(s[0] == m[0]); } }
        assert(trim_end(s) == s) by { assert(!is_ws(s.last())) by { assert(s.last() == k.last()); } }
    }
    assert(forall|j: int| 0 <= j < parts.len() ==> (#[trigger] parts[j]).len() > 0);
    let mods = in_order(parts.drop_last(), modifiers_alphabetical());
    assert(mods =~= seq![m]) by {
        reveal_strlit("alt");
        reveal_strlit("ctrl");
        reveal_strlit("shift");
        let alph = modifiers_alphabetical();
        assert(alph[0] != alph[1] && alph[0] != alph[2] && alph[1] != alph[2]) by {
            assert(alph[0][0] != alph[1][0] && alph[0][0] != alph[2][0] && alph[1][0] != alph[2][0]);
        }
        let pm = parts.drop_last();
        let pred = |x: Seq<char>| pm.contains(x);
        assert forall|j: int| 0 <= j < 3 implies (pm.contains(#[trigger] alph[j]) <==> j == mi) by {
            if pm.contains(alph[j]) {
                let q = choose|q: int| 0 <= q < pm.len() && pm[q] == alph[j];
                assert(q == 0);
            }
            if j == mi {
                assert(pm[0] == alph[j]);
            }
        }
        reveal(Seq::filter);
        let a0 = alph.drop_last().drop_last();
        let a1 = alph.drop_last();
        assert(a0.drop_last() =~= Seq::<Seq<char>>::empty());
        assert(a0.drop_last().filter(pred) =~= Seq::<Seq<char>>::empty());
        assert(a0.last() == alph[0] && a1.last() == alph[1] && alph.last() == alph[2]);
        assert(a0.filter(pred) =~= if mi == 0 { seq![m] } else { Seq::<Seq<char>>::empty() });
        assert(a1.filter(pred) =~= if mi <= 1 { seq![m] } else { Seq::<Seq<char>>::empty() });
        assert(alph.filter(pred) =~= seq![m]);
    }
    assert(join(seq![m], seq!['+']) == m);
    assert(assemble(mods, k) == s);
    assert(key_of(s) == k);

}

/// A hotkey with no `+` or whose first character is not `a` or `c` is not reserved.
proof fn lemma_not_reserved(s: Seq<char>)
    requires
        s.len() > 0,
        s[0] != 'a' && s[0] != 'c' || s.len() <= 5,
    ensures
        !reserved_hotkeys().contains(s),
{
    reveal_strlit("alt+tab");
    reveal_strlit("alt+f4");
    reveal_strlit("ctrl+alt+del");
    reveal_strlit("ctrl+shift+esc");
    if reserved_hotkeys().contains(s) {
        let j = choose|j: int| 0 <= j < 4 && reserved_hotkeys()[j] == s;
        assert(reserved_hotkeys()[j][0] == s[0]);
        assert(reserved_hotkeys()[j].len() == s.len());
    }
}

/// Every default hotkey is bindable.
proof fn lemma_default_bindable(q: int)
    requires
        0 <= q < 12,
    ensures
        is_bindable(default_bindings()[q].1),
{
    if q == 0 {
        reveal_strlit("shift");
        reveal_strlit("x");
        reveal_strlit("shift+x");
        assert("shift+x"@ =~= "shift"@ + seq!['+'] + "x"@);
        assert(allowed_keys()[23] == "x"@);
        lemma_not_reserved("shift+x"@);
        lemma_combo_bindable("shift"@, "x"@, 2);
    } else if q == 1 {
        reveal_strlit("shift");
        reveal_strlit("z");
        reveal_strlit("shift+z");
        assert("shift+z"@ =~= "shift"@ + seq!['+'] + "z"@);
        assert(allowed_keys()[25] == "z"@);
        lemma_not_reserved("shift+z"@);
        lemma_combo_bindable("shift"@, "z"@, 2);
    } else if q == 2 {
        reveal_strlit("alt");
        reveal_strlit("d");
        reveal_strlit("alt+d");
        assert("alt+d"@ =~= "alt"@ + seq!['+'] + "d"@);
        assert(allowed_keys()[3] == "d"@);
        lemma_not_reserved("alt+d"@);
        lemma_combo_bindable("alt"@, "d"@, 0);
    } else if q == 4 {
        reveal_strlit("alt");
        reveal_strlit("'");
        reveal_strlit("alt+'");
        assert("alt+'"@ =~= "alt"@ + seq!['+'] + "'"@);
        assert(allowed_keys()[59] == "'"@);
        lemma_not_reserved("alt+'"@);
        lemma_combo_bindable("alt"@, "'"@, 0);
    } else if q == 5 {
        reveal_strlit("shift");
        reveal_strlit("v");
        reveal_strlit("shift+v");
        assert("shift+v"@ =~= "shift"@ + seq!['+'] + "v"@);
        assert(allowed_keys()[21] == "v"@);
        lemma_not_reserved("shift+v"@);
        lemma_combo_bindable("shift"@, "v"@, 2);
    } else if q == 6 {
        reveal_strlit("shift");
        reveal_strlit("c");
        reveal_strlit("shift+c");
        assert("shift+c"@ =~= "shift"@ + seq!['+'] + "c"@);
        assert(allowed_keys()[2] == "c"@);
        lemma_not_reserved("shift+c"@);
        lemma_combo_bindable("shift"@, "c"@, 2);
    } else if q == 8 {
        reveal_strlit("alt");
        reveal_strlit("2");
        reveal_strlit("alt+2");
        assert("alt+2"@ =~= "alt"@ + seq!['+'] + "2"@);
        assert(allowed_keys()[28] == "2"@);
        lemma_not_reserved("alt+2"@);
        lemma_combo_bindable("alt"@, "2"@, 0);
    } else if q == 3 {
        reveal_strlit("delete");
        assert(allowed_keys()[51] == "delete"@);
        lemma_not_reserved("delete"@);
        lemma_key_bindable("delete"@);
    } else if q == 7 {
        reveal_strlit("insert");
        assert(allowed_keys()[50] == "insert"@);
        lemma_not_reserved("insert"@);
        lemma_key_bindable("insert"@);
    } else if q == 9 {
        reveal_strlit("home");
        assert(allowed_keys()[48] == "home"@);
        lemma_not_reserved("home"@);
        lemma_key_bindable("home"@);
    } else if q == 10 {
        reveal_strlit("page_down");
        assert(allowed_keys()[53] == "page_down"@);
        lemma_not_reserved("page_down"@);
        lemma_key_bindable("page_down"@);
    } else if q == 11 {
        reveal_strlit("page_up");
        assert(allowed_keys()[52] == "page_up"@);
        lemma_not_reserved("page_up"@);
        lemma_key_bindable("page_up"@);
    }
}

// ---------------------------------------------------------------------------
// Key-binding clean-up
// ---------------------------------------------------------------------------

/// The value bound to `action`, if any.
pub open spec fn lookup(kb: Seq<(Seq<char>, Seq<char>)>, action: Seq<char>) -> Option<Seq<char>> {
    assigned_to(kb, action)
}

pub open spec fn unique_actions(kb: Seq<(Seq<char>, Seq<char>)>) -> bool {
    forall|i: int, j: int| 0 <= i < j < kb.len() ==> kb[i].0 != kb[j].0
}

pub open spec fn is_default_action(a: Seq<char>) -> bool {
    exists|k: int| 0 <= k < default_bindings().len() && (#[trigger] default_bindings()[k]).0 == a
}

/// Whether the old settings shortcut ``alt+` `` is bound and gets migrated.
pub open spec fn needs_migration(kb: Seq<(Seq<char>, Seq<char>)>) -> bool {
    lookup(kb, "open_settings"@) == Some("alt+`"@)
}

/// The value of a default action after migration and repair.
pub open spec fn repaired_value(kb: Seq<(Seq<char>, Seq<char>)>, action: Seq<char>, default: Seq<char>) -> Seq<char> {
    let current = if needs_migration(kb) && action == "open_settings"@ {
        Some("alt+'"@)
    } else {
        lookup(kb, action)
    };
    match current {
        Some(v) => if trim(v).len() > 0 && !is_bindable(v) {
            default
        } else {
            v
        },
        None => default,
    }
}

/// Whether the binding of a default action is repaired to its default.
pub open spec fn is_repaired(kb: Seq<(Seq<char>, Seq<char>)>, action: Seq<char>) -> bool {
    let current = if needs_migration(kb) && action == "open_settings"@ {
        Some("alt+'"@)
    } else {
        lookup(kb, action)
    };
    current matches Some(v) && trim(v).len() > 0 && !is_bindable(v)
}

pub open spec fn msg_unknown(action: Seq<char>) -> Seq<char> {
    "usunięto nieznany skrót „"@ + action + "”"@
}

pub open spec fn msg_repaired(action: Seq<char>, old: Seq<char>, default: Seq<char>) -> Seq<char> {
    "naprawiono skrót „"@ + action + "”: „"@ + old + "” → „"@ + default + "”"@
}

pub open spec fn msg_duplicate_binding(action: Seq<char>, other: Seq<char>) -> Seq<char> {
    "skrót „"@ + action + "” był taki sam jak „"@ + other + "” — wyłączono"@
}

pub open spec fn msg_migrated() -> Seq<char> {
    "zmieniono skrót ustawień: alt+` → alt+'"@
}

/// Issues for the actions that are not default actions, in input order.
pub open spec fn unknown_issues(kb: Seq<(Seq<char>, Seq<char>)>, k: int) -> Seq<Seq<char>>
    decreases k,
{
    if k <= 0 {
        Seq::empty()
    } else if !is_default_action(kb[k - 1].0) {
        unknown_issues(kb, k - 1).push(msg_unknown(kb[k - 1].0))
    } else {
        unknown_issues(kb, k - 1)
    }
}

/// Issues for the repaired bindings, in default-action order.
pub open spec fn repair_issues(kb: Seq<(Seq<char>, Seq<char>)>, k: int) -> Seq<Seq<char>>
    decreases k,
{
    if k <= 0 {
        Seq::empty()
    } else {
        let (a, d) = default_bindings()[k - 1];
        if is_repaired(kb, a) {
            repair_issues(kb, k - 1).push(msg_repaired(a, lookup(kb, a)->0, d))
        } else {
            repair_issues(kb, k - 1)
        }
    }
}

/// The hotkey a value is compared by when looking for duplicates.
pub open spec fn comparison_key(v: Seq<char>) -> Seq<char> {
    match normalize_sorted(v) {
        Some(n) => n,
        None => v,
    }
}

/// Duplicate resolution over the first `k` default actions: final values,
/// issues, and the hotkeys kept so far with their action.
pub open spec fn dedup_pass(kb: Seq<(Seq<char>, Seq<char>)>, k: int) -> (
    Seq<Seq<char>>,
    Seq<Seq<char>>,
    Seq<(Seq<char>, Seq<char>)>,
)
    decreases k,
{
    if k <= 0 {
        (Seq::empty(), Seq::empty(), Seq::empty())
    } else {
        let (vals, issues, seen) = dedup_pass(kb, k - 1);
        let (a, d) = default_bindings()[k - 1];
        let v = repaired_value(kb, a, d);
        if trim(v).len() == 0 {
            (vals.push(v), issues, seen)
        } else {
            match assigned_to(seen, comparison_key(v)) {
                Some(other) => (vals.push(Seq::empty()), issues.push(msg_duplicate_binding(a, other)), seen),
                None => (vals.push(v), issues, seen.push((comparison_key(v), a))),
            }
        }
    }
}

/// The bindings after clean-up: every default action, in alphabetical order.
pub open spec fn sanitized_bindings(kb: Seq<(Seq<char>, Seq<char>)>) -> Seq<(Seq<char>, Seq<char>)> {
    zip_actions(dedup_pass(kb, 12).0)
}

/// The default actions, in order, paired with the given values.
pub open spec fn zip_actions(vals: Seq<Seq<char>>) -> Seq<(Seq<char>, Seq<char>)> {
    Seq::new(vals.len(), |q: int| (default_bindings()[q].0, vals[q]))
}

/// The notes describing every change, in the order the changes were made.
pub open spec fn sanitize_issues(kb: Seq<(Seq<char>, Seq<char>)>) -> Seq<Seq<char>> {
    let migrated = if needs_migration(kb) {
        seq![msg_migrated()]
    } else {
        Seq::empty()
    };
    migrated + unknown_issues(kb, kb.len() as int) + repair_issues(kb, 12) + dedup_pass(kb, 12).1
}

proof fn lemma_assigned_push(s: Seq<(Seq<char>, Seq<char>)>, x: (Seq<char>, Seq<char>), n: Seq<char>)
    requires
        assigned_to(s, n) is Some,
    ensures
        assigned_to(s.push(x), n) is Some,
    decreases s.len(),
{
    if s[0].0 != n {
        assert(s.push(x).skip(1) =~= s.skip(1).push(x));
        lemma_assigned_push(s.skip(1), x, n);
    }
}

proof fn lemma_dedup_pass(kb: Seq<(Seq<char>, Seq<char>)>, k: int)
    requires
        0 <= k <= 12,
    ensures
        dedup_pass(kb, k).0.len() == k,
        forall|i: int| 0 <= i < k && trim(#[trigger] dedup_pass(kb, k).0[i]).len() > 0
            ==> assigned_to(dedup_pass(kb, k).2, comparison_key(dedup_pass(kb, k).0[i])) is Some,
        forall|i: int, j: int| 0 <= i < j < k && trim(#[trigger] dedup_pass(kb, k).0[i]).len() > 0
            && trim(#[trigger] dedup_pass(kb, k).0[j]).len() > 0
            ==> comparison_key(dedup_pass(kb, k).0[i]) != comparison_key(dedup_pass(kb, k).0[j]),
    decreases k,
{
    if k > 0 {
        lemma_dedup_pass(kb, k - 1);
        let (vals, issues, seen) = dedup_pass(kb, k - 1);
        let (a, d) = default_bindings()[k - 1];
        let v = repaired_value(kb, a, d);
        let r = dedup_pass(kb, k);
        assert(Seq::<char>::empty().len() == 0);
        assert(trim(Seq::<char>::empty()).len() == 0);
        if trim(v).len() > 0 && assigned_to(seen, comparison_key(v)) is None {
            let x = (comparison_key(v), a);
            assert(r.2 == seen.push(x));
            assert forall|i: int| 0 <= i < k && trim(#[trigger] r.0[i]).len() > 0
                implies assigned_to(r.2, comparison_key(r.0[i])) is Some by {
                if i < k - 1 {
                    assert(r.0[i] == vals[i]);
                    lemma_assigned_push(seen, x, comparison_key(vals[i]));
                } else {
                    assert(seen.push(x).skip(0) =~= seen.push(x));
                    lemma_assigned_last(seen, x);
                }
            }
        }
    }
}

proof fn lemma_assigned_last(s: Seq<(Seq<char>, Seq<char>)>, x: (Seq<char>, Seq<char>))
    ensures
        assigned_to(s.push(x), x.0) is Some,
    decreases s.len(),
{
    if s.len() > 0 && s[0].0 != x.0 {
        assert(s.push(x).skip(1) =~= s.skip(1).push(x));
        lemma_assigned_last(s.skip(1), x);
    }
}

/// After clean-up every default action is bound, in alphabetical order, no
/// other action is, and no hotkey is bound to two actions (compared in
/// normalized form; unbound actions have an empty value).
pub proof fn lemma_sanitized_bindings_unique(kb: Seq<(Seq<char>, Seq<char>)>)
    ensures
        sanitized_bindings(kb).len() == default_bindings().len(),
        forall|q: int| 0 <= q < sanitized_bindings(kb).len() ==> (#[trigger] sanitized_bindings(kb)[q]).0 == default_bindings()[q].0,
        forall|i: int, j: int| 0 <= i < j < sanitized_bindings(kb).len()
            && trim((#[trigger] sanitized_bindings(kb)[i]).1).len() > 0
            && trim((#[trigger] sanitized_bindings(kb)[j]).1).len() > 0
            ==> comparison_key(sanitized_bindings(kb)[i].1) != comparison_key(sanitized_bindings(kb)[j].1),
{
    lemma_dedup_pass(kb, 12);
    let vals = dedup_pass(kb, 12).0;
    let r = sanitized_bindings(kb);
    assert forall|i: int, j: int| 0 <= i < j < r.len() && trim((#[trigger] r[i]).1).len() > 0 && trim((#[trigger] r[j]).1).len() > 0
        implies comparison_key(r[i].1) != comparison_key(r[j].1) by {
        assert(r[i].1 == vals[i] && r[j].1 == vals[j]);
    }
}

proof fn lemma_default_actions_distinct()
    ensures
        unique_actions(default_bindings()),
{
    reveal_strlit("base_speed_down");
    reveal_strlit("base_speed_up");
    reveal_strlit("debug_console");
    reveal_strlit("interrupt_audio");
    reveal_strlit("open_settings");
    reveal_strlit("overlap_speed_down");
    reveal_strlit("overlap_speed_up");
    reveal_strlit("test_sound");
    reveal_strlit("toggle_areas");
    reveal_strlit("toggle_reader");
    reveal_strlit("volume_down");
    reveal_strlit("volume_up");
    let d = default_bindings();
    assert forall|i: int, j: int| 0 <= i < j < d.len() implies d[i].0 != d[j].0 by {
        if d[i].0 == d[j].0 {
            assert(d[i].0.len() == d[j].0.len());
            assert(d[i].0[0] == d[j].0[0]);
            assert(d[i].0[1] == d[j].0[1]);
            assert(d[i].0[7] == d[j].0[7]);
        }
    }
}

proof fn lemma_assigned_unique(s: Seq<(Seq<char>, Seq<char>)>, q: int)
    requires
        unique_actions(s),
        0 <= q < s.len(),
    ensures
        assigned_to(s, s[q].0) == Some(s[q].1),
    decreases s.len(),
{
    if q > 0 {
        assert(s[0].0 != s[q].0);
        assert(unique_actions(s.skip(1))) by {
            assert forall|i: int, j: int| 0 <= i < j < s.skip(1).len() implies s.skip(1)[i].0 != s.skip(1)[j].0 by {
                assert(s.skip(1)[i] == s[i + 1] && s.skip(1)[j] == s[j + 1]);
            }
        }
        assert(s.skip(1)[q - 1] == s[q]);
        lemma_assigned_unique(s.skip(1), q - 1);
    }
}

proof fn lemma_assigned_some(s: Seq<(Seq<char>, Seq<char>)>, n: Seq<char>)
    requires
        assigned_to(s, n) is Some,
    ensures
        exists|j: int| 0 <= j < s.len() && (#[trigger] s[j]).0 == n,
    decreases s.len(),
{
    if s[0].0 != n {
        lemma_assigned_some(s.skip(1), n);
        let j = choose|j: int| 0 <= j < s.skip(1).len() && (#[trigger] s.skip(1)[j]).0 == n;
        assert(s[j + 1] == s.skip(1)[j]);
    } else {
        assert(s[0].0 == n);
    }
}

/// A value is unbound (blank) or a bindable hotkey.
pub open spec fn settled_value(v: Seq<char>) -> bool {
    trim(v).len() == 0 || is_bindable(v)
}

proof fn lemma_dedup_values(kb: Seq<(Seq<char>, Seq<char>)>, k: int)
    requires
        0 <= k <= 12,
    ensures
        forall|i: int| 0 <= i < k ==> (#[trigger] dedup_pass(kb, k).0[i]) == Seq::<char>::empty()
            || dedup_pass(kb, k).0[i] == repaired_value(kb, default_bindings()[i].0, default_bindings()[i].1),
    decreases k,
{
    if k > 0 {
        lemma_dedup_values(kb, k - 1);
        lemma_dedup_pass(kb, k - 1);
    }
}

proof fn lemma_repaired_settled(kb: Seq<(Seq<char>, Seq<char>)>, q: int)
    requires
        0 <= q < 12,
    ensures
        settled_value(repaired_value(kb, default_bindings()[q].0, default_bindings()[q].1)),
        q == 4 ==> repaired_value(kb, default_bindings()[q].0, default_bindings()[q].1) != "alt+`"@,
{
    lemma_default_bindable(q);
    reveal_strlit("alt+`");
    reveal_strlit("alt+'");
    assert("alt+`"@ != "alt+'"@) by {
        assert("alt+`"@[4] != "alt+'"@[4]);
    }
}

/// Cleaning up bindings that were already cleaned up changes nothing and
/// reports nothing; the cleaned-up bindings have one entry per action, so
/// they can be cleaned up again.
pub proof fn lemma_sanitize_idempotent(kb: Seq<(Seq<char>, Seq<char>)>)
    ensures
        unique_actions(sanitized_bindings(kb)),
        sanitized_bindings(sanitized_bindings(kb)) == sanitized_bindings(kb),
        sanitize_issues(sanitized_bindings(kb)) == Seq::<Seq<char>>::empty(),
{
    let kb2 = sanitized_bindings(kb);
    let vals = dedup_pass(kb, 12).0;
    let d = default_bindings();
    lemma_dedup_pass(kb, 12);
    lemma_dedup_values(kb, 12);
    lemma_default_actions_distinct();
    assert(unique_actions(kb2));
    // Every value is settled, and the settings shortcut is not the old one.
    assert(Seq::<char>::empty().len() == 0);
    assert(trim(Seq::<char>::empty()).len() == 0);
    assert forall|q: int| 0 <= q < 12 implies settled_value(#[trigger] vals[q]) by {
        lemma_repaired_settled(kb, q);
    }
    assert(vals[4] != "alt+`"@) by {
        lemma_repaired_settled(kb, 4);
        reveal_strlit("alt+`");
    }
    // Looking a default action up gives its value.
    assert forall|q: int| 0 <= q < 12 implies lookup(kb2, #[trigger] d[q].0) == Some(vals[q]) by {
        lemma_assigned_unique(kb2, q);
    }
    assert(d[4].0 == "open_settings"@);
    assert(!needs_migration(kb2)) by {
        assert(lookup(kb2, d[4].0) == Some(vals[4]));
    }
    assert forall|q: int| 0 <= q < 12 implies repaired_value(kb2, #[trigger] d[q].0, d[q].1) == vals[q] by {
        assert(lookup(kb2, d[q].0) == Some(vals[q]));
        assert(settled_value(vals[q]));
    }
    assert forall|q: int| 0 <= q < 12 implies !is_repaired(kb2, #[trigger] d[q].0) by {
        assert(lookup(kb2, d[q].0) == Some(vals[q]));
        assert(settled_value(vals[q]));
    }
    lemma_no_unknown(kb2, 12);
    lemma_no_repairs(kb2, 12);
    lemma_second_pass(kb, 12);
    assert(vals.take(12) =~= vals);
    assert(sanitized_bindings(kb2) =~= kb2);
    assert(sanitize_issues(kb2) =~= Seq::<Seq<char>>::empty());
}

proof fn lemma_no_unknown(kb2: Seq<(Seq<char>, Seq<char>)>, k: int)
    requires
        0 <= k <= kb2.len(),
        kb2.len() == 12,
        forall|q: int| 0 <= q < 12 ==> (#[trigger] kb2[q]).0 == default_bindings()[q].0,
    ensures
        unknown_issues(kb2, k) == Seq::<Seq<char>>::empty(),
    decreases k,
{
    if k > 0 {
        lemma_no_unknown(kb2, k - 1);
        assert(is_default_action(kb2[k - 1].0)) by {
            assert(default_bindings()[k - 1].0 == kb2[k - 1].0);
        }
    }
}

proof fn lemma_no_repairs(kb2: Seq<(Seq<char>, Seq<char>)>, k: int)
    requires
        0 <= k <= 12,
        forall|q: int| 0 <= q < 12 ==> !is_repaired(kb2, #[trigger] default_bindings()[q].0),
    ensures
        repair_issues(kb2, k) == Seq::<Seq<char>>::empty(),
    decreases k,
{
    if k > 0 {
        lemma_no_repairs(kb2, k - 1);
        let (a, dv) = default_bindings()[k - 1];
        assert(!is_repaired(kb2, default_bindings()[k - 1].0));
    }
}

proof fn lemma_second_pass(kb: Seq<(Seq<char>, Seq<char>)>, k: int)
    requires
        0 <= k <= 12,
        forall|q: int| 0 <= q < 12 ==> repaired_value(sanitized_bindings(kb), #[trigger] default_bindings()[q].0, default_bindings()[q].1)
            == dedup_pass(kb, 12).0[q],
    ensures
        dedup_pass(sanitized_bindings(kb), k).0 == dedup_pass(kb, 12).0.take(k),
        dedup_pass(sanitized_bindings(kb), k).1 == Seq::<Seq<char>>::empty(),
        forall|j: int| 0 <= j < dedup_pass(sanitized_bindings(kb), k).2.len() ==> exists|i: int| 0 <= i < k
            && trim(dedup_pass(kb, 12).0[i]).len() > 0
            && (#[trigger] dedup_pass(sanitized_bindings(kb), k).2[j]).0 == comparison_key(dedup_pass(kb, 12).0[i]),
    decreases k,
{
    let kb2 = sanitized_bindings(kb);
    let vals = dedup_pass(kb, 12).0;
    lemma_dedup_pass(kb, 12);
    if k == 0 {
        assert(vals.take(0) =~= Seq::<Seq<char>>::empty());
    } else {
        lemma_second_pass(kb, k - 1);
        let (pv, pi, seen) = dedup_pass(kb2, k - 1);
        let (a, dv) = default_bindings()[k - 1];
        assert(repaired_value(kb2, a, dv) == vals[k - 1]);
        let v = vals[k - 1];
        if trim(v).len() > 0 {
            if assigned_to(seen, comparison_key(v)) is Some {
                lemma_assigned_some(seen, comparison_key(v));
                let j = choose|j: int| 0 <= j < seen.len() && (#[trigger] seen[j]).0 == comparison_key(v);
                let i = choose|i: int| 0 <= i < k - 1 && trim(vals[i]).len() > 0
                    && (#[trigger] seen[j]).0 == comparison_key(vals[i]);
                assert(comparison_key(vals[i]) != comparison_key(vals[k - 1]));
            }
            let r = dedup_pass(kb2, k);
            assert forall|j: int| 0 <= j < r.2.len() implies exists|i: int| 0 <= i < k
                && trim(vals[i]).len() > 0 && (#[trigger] r.2[j]).0 == comparison_key(vals[i]) by {
                if j < seen.len() {
                    assert(r.2[j] == seen[j]);
                    let i = choose|i: int| 0 <= i < k - 1 && trim(vals[i]).len() > 0
                        && (#[trigger] seen[j]).0 == comparison_key(vals[i]);
                    assert(0 <= i < k);
                } else {
                    assert(r.2[j].0 == comparison_key(vals[k - 1]));
                }
            }
        }
        assert(vals.take(k) =~= vals.take(k - 1).push(vals[k - 1]));
    }
}

fn lookup_exec(kb: &Vec<(String, String)>, action: &Vec<char>) -> (r: Option<Vec<char>>)
    ensures
        r matches Some(v) ==> lookup(pair_views(kb@), action@) == Some(v@),
        r is None ==> lookup(pair_views(kb@), action@) is None,
{
    let ghost kv = pair_views(kb@);
    assert(kv.skip(0) =~= kv);
    let mut i: usize = 0;
    while i < kb.len()
        invariant
            i <= kb@.len(),
            kv == pair_views(kb@),
            assigned_to(kv, action@) == assigned_to(kv.skip(i as int), action@),
        decreases kb@.len() - i,
    {
        assert(kv.skip(i as int)[0] == kv[i as int]);
        assert(kv.skip(i as int).skip(1) =~= kv.skip(i + 1));
        let a = chars_of(kb[i].0.as_str());
        if chars_eq(a.as_slice(), action.as_slice()) {
            return Some(chars_of(kb[i].1.as_str()));
        }
        i += 1;
    }
    assert(kv.skip(kb@.len() as int).len() == 0);
    None
}

fn seen_lookup(seen: &Vec<(Vec<char>, Vec<char>)>, n: &Vec<char>) -> (r: Option<Vec<char>>)
    ensures
        r matches Some(v) ==> assigned_to(char_pair_views(seen@), n@) == Some(v@),
        r is None ==> assigned_to(char_pair_views(seen@), n@) is None,
{
    let ghost sv = char_pair_views(seen@);
    assert(sv.skip(0) =~= sv);
    let mut i: usize = 0;
    while i < seen.len()
        invariant
            i <= seen@.len(),
            sv == char_pair_views(seen@),
            assigned_to(sv, n@) == assigned_to(sv.skip(i as int), n@),
        decreases seen@.len() - i,
    {
        assert(sv.skip(i as int)[0] == sv[i as int]);
        assert(sv.skip(i as int).skip(1) =~= sv.skip(i + 1));
        if chars_eq(seen[i].0.as_slice(), n.as_slice()) {
            let mut v: Vec<char> = Vec::new();
            append_chars(&mut v, seen[i].1.as_slice());
            assert(v@ =~= sv[i as int].1);
            return Some(v);
        }
        i += 1;
    }
    assert(sv.skip(seen@.len() as int).len() == 0);
    None
}

/// The binding is for one of the default actions.
pub open spec fn known_binding() -> spec_fn((Seq<char>, Seq<char>)) -> bool {
    |b: (Seq<char>, Seq<char>)| is_default_action(b.0)
}

/// The bindings for known (default) actions, in order; bindings of actions
/// that no longer exist are dropped.
pub fn keep_known_actions(bindings: Vec<(String, String)>) -> (r: Vec<(String, String)>)
    ensures
        pair_views(r@) == pair_views(bindings@).filter(known_binding()),
{
    let defaults = default_pairs();
    let ghost orig = bindings@;
    let mut rest = bindings;
    let mut out: Vec<(String, String)> = Vec::new();
    let ghost mut done: int = 0;
    while rest.len() > 0
        invariant
            0 <= done <= orig.len(),
            rest@ == orig.skip(done),
            char_pair_views(defaults@) == default_bindings(),
            pair_views(out@) == pair_views(orig.take(done)).filter(known_binding()),
        decreases rest@.len(),
    {
        let b = rest.remove(0);
        let a = chars_of(b.0.as_str());
        let known = is_default_action_exec(&defaults, &a);
        proof {
            reveal(Seq::filter);
            assert(b == orig[done]);
            assert(pair_views(orig.take(done + 1)) =~= pair_views(orig.take(done)).push((b.0@, b.1@)));
            assert(pair_views(orig.take(done + 1)).drop_last() =~= pair_views(orig.take(done)));
        }
        if known {
            let ghost before = out@;
            out.push(b);
            proof {
                lemma_pair_views_push(before, out@[before.len() as int]);
                assert(out@ == before.push(out@[before.len() as int]));
            }
        }
        proof {
            done = done + 1;
        }
    }
    proof {
        assert(orig.take(done) =~= orig);
    }
    out
}

fn is_default_action_exec(defaults: &Vec<(Vec<char>, Vec<char>)>, a: &Vec<char>) -> (b: bool)
    requires
        char_pair_views(defaults@) == default_bindings(),
    ensures
        b == is_default_action(a@),
{
    let ghost dv = default_bindings();
    let mut i: usize = 0;
    while i < defaults.len()
        invariant
            i <= defaults@.len(),
            char_pair_views(defaults@) == dv,
            dv == default_bindings(),
            forall|k: int| 0 <= k < i ==> (#[trigger] dv[k]).0 != a@,
        decreases defaults@.len() - i,
    {
        assert(dv[i as int].0 == defaults@[i as int].0@);
        if chars_eq(defaults[i].0.as_slice(), a.as_slice()) {
            return true;
        }
        i += 1;
    }
    false
}

fn copy_chars(s: &[char]) -> (r: Vec<char>)
    ensures
        r@ == s@,
{
    let mut r: Vec<char> = Vec::new();
    append_chars(&mut r, s);
    r
}

/// Cleans up key bindings read from a preset and returns notes describing
/// each change: the old settings shortcut is migrated, unknown actions are
/// dropped, invalid hotkeys reset to their default, missing actions added,
/// and of several actions sharing a hotkey only the alphabetically first keeps
/// it.  The bindings come out in alphabetical action order.
pub fn sanitize_key_bindings(kb: &mut Vec<(String, String)>) -> (issues: Vec<String>)
    requires
        unique_actions(pair_views(old(kb)@)),
    ensures
        pair_views(final(kb)@) == sanitized_bindings(pair_views(old(kb)@)),
        string_views(issues@) == sanitize_issues(pair_views(old(kb)@)),
{
    let ghost kv = pair_views(kb@);
    let defaults = default_pairs();
    let mut issues: Vec<String> = Vec::new();
    // Migration of the old settings shortcut.
    let open_settings = chars_of("open_settings");
    let old_key = chars_of("alt+`");
    let migrate = match lookup_exec(kb, &open_settings) {
        Some(v) => chars_eq(v.as_slice(), old_key.as_slice()),
        None => false,
    };
    if migrate {
        issues.push("zmieniono skrót ustawień: alt+` → alt+'".to_owned());
    }
    assert(string_views(issues@) =~= (if needs_migration(kv) { seq![msg_migrated()] } else { Seq::empty() }));
    // Unknown actions.
    let ghost issues0 = string_views(issues@);
    let mut i: usize = 0;
    while i < kb.len()
        invariant
            i <= kb@.len(),
            kv == pair_views(kb@),
            char_pair_views(defaults@) == default_bindings(),
            string_views(issues@) == issues0 + unknown_issues(kv, i as int),
        decreases kb@.len() - i,
    {
        let a = chars_of(kb[i].0.as_str());
        assert(kv[i as int].0 == a@);
        if !is_default_action_exec(&defaults, &a) {
            let mut m = chars_of("usunięto nieznany skrót „");
            append_chars(&mut m, a.as_slice());
            append_chars(&mut m, chars_of("”").as_slice());
            assert(m@ == msg_unknown(a@));
            let ghost before = issues@;
            issues.push(string_of(m.as_slice()));
            proof {
                lemma_string_views_push(before, issues@[before.len() as int]);
                assert(issues@ == before.push(issues@[before.len() as int]));
            }
        }
        assert(string_views(issues@) =~= issues0 + unknown_issues(kv, i + 1));
        i += 1;
    }
    // Repairs, then the values every default action ends up with.
    let ghost issues1 = string_views(issues@);
    let mut repaired: Vec<Vec<char>> = Vec::new();
    let mut k: usize = 0;
    while k < 12
        invariant
            k <= 12,
            kv == pair_views(kb@),
            defaults@.len() == 12,
            char_pair_views(defaults@) == default_bindings(),
            migrate == needs_migration(kv),
            repaired@.len() == k,
            forall|q: int| 0 <= q < k ==> #[trigger] repaired@[q]@ == repaired_value(kv, default_bindings()[q].0, default_bindings()[q].1),
            string_views(issues@) == issues1 + repair_issues(kv, k as int),
        decreases 12 - k,
    {
        let a = &defaults[k].0;
        let d = &defaults[k].1;
        assert(default_bindings()[k as int] == (a@, d@));
        let is_open = chars_eq(a.as_slice(), chars_of("open_settings").as_slice());
        let current = if migrate && is_open {
            Some(chars_of("alt+'"))
        } else {
            lookup_exec(kb, a)
        };
        let value = match current {
            Some(v) => {
                let t = trim_chars(v.as_slice());
                if t.len() > 0 && !is_valid_hotkey(string_of(v.as_slice()).as_str()) {
                    let old_v = match lookup_exec(kb, a) {
                        Some(o) => o,
                        None => Vec::new(),
                    };
                    let mut m = chars_of("naprawiono skrót „");
                    append_chars(&mut m, a.as_slice());
                    append_chars(&mut m, chars_of("”: „").as_slice());
                    append_chars(&mut m, old_v.as_slice());
                    append_chars(&mut m, chars_of("” → „").as_slice());
                    append_chars(&mut m, d.as_slice());
                    append_chars(&mut m, chars_of("”").as_slice());
                    proof {
                        assert(lookup(kv, a@) == Some(old_v@)) by {
                            if migrate && is_open {
                                assert(lookup(kv, "open_settings"@) == Some("alt+`"@));
                            }
                        }
                        assert(m@ == msg_repaired(a@, old_v@, d@));
                    }
                    let ghost before = issues@;
                    issues.push(string_of(m.as_slice()));
                    proof {
                        lemma_string_views_push(before, issues@[before.len() as int]);
                        assert(issues@ == before.push(issues@[before.len() as int]));
                    }
                    copy_chars(d.as_slice())
                } else {
                    v
                }
            },
            None => copy_chars(d.as_slice()),
        };
        repaired.push(value);
        assert(string_views(issues@) =~= issues1 + repair_issues(kv, k + 1));
        k += 1;
    }
    // Duplicates: the alphabetically first action keeps the hotkey.
    let ghost issues2 = string_views(issues@);
    let mut seen: Vec<(Vec<char>, Vec<char>)> = Vec::new();
    let mut out: Vec<(String, String)> = Vec::new();
    let mut k: usize = 0;
    while k < 12
        invariant
            k <= 12,
            kv == pair_views(old(kb)@),
            defaults@.len() == 12,
            char_pair_views(defaults@) == default_bindings(),
            repaired@.len() == 12,
            forall|q: int| 0 <= q < 12 ==> #[trigger] repaired@[q]@ == repaired_value(kv, default_bindings()[q].0, default_bindings()[q].1),
            out@.len() == k,
            dedup_pass(kv, k as int).0.len() == k,
            pair_views(out@) == zip_actions(dedup_pass(kv, k as int).0),
            char_pair_views(seen@) == dedup_pass(kv, k as int).2,
            string_views(issues@) == issues2 + dedup_pass(kv, k as int).1,
        decreases 12 - k,
    {
        let a = &defaults[k].0;
        let v = &repaired[k];
        assert(default_bindings()[k as int].0 == a@);
        let t = trim_chars(v.as_slice());
        let ghost sv = char_pair_views(seen@);
        let ghost prev = dedup_pass(kv, k as int);
        let final_value: Vec<char> = if t.len() == 0 {
            copy_chars(v.as_slice())
        } else {
            let norm = match normalize_sorted_exec(string_of(v.as_slice()).as_str()) {
                Some(n) => n,
                None => copy_chars(v.as_slice()),
            };
            assert(norm@ == comparison_key(v@));
            match seen_lookup(&seen, &norm) {
                Some(other) => {
                    let mut m = chars_of("skrót „");
                    append_chars(&mut m, a.as_slice());
                    append_chars(&mut m, chars_of("” był taki sam jak „").as_slice());
                    append_chars(&mut m, other.as_slice());
                    append_chars(&mut m, chars_of("” — wyłączono").as_slice());
                    assert(m@ == msg_duplicate_binding(a@, other@));
                    let ghost before = issues@;
                    issues.push(string_of(m.as_slice()));
                    proof {
                        lemma_string_views_push(before, issues@[before.len() as int]);
                        assert(issues@ == before.push(issues@[before.len() as int]));
                    }
                    Vec::new()
                },
                None => {
                    let ghost before = seen@;
                    seen.push((norm, copy_chars(a.as_slice())));
                    proof {
                        lemma_char_pair_views_push(before, seen@[before.len() as int]);
                        assert(seen@ == before.push(seen@[before.len() as int]));
                    }
                    copy_chars(v.as_slice())
                },
            }
        };
        let ghost before_out = out@;
        out.push((string_of(a.as_slice()), string_of(final_value.as_slice())));
        proof {
            lemma_pair_views_push(before_out, out@[k as int]);
            assert(out@ == before_out.push(out@[k as int]));
            let next = dedup_pass(kv, k + 1);
            assert(next.0 == prev.0.push(final_value@));
            assert(zip_actions(next.0) =~= zip_actions(prev.0).push((default_bindings()[k as int].0, final_value@)));
        }
        assert(string_views(issues@) =~= issues2 + dedup_pass(kv, k + 1).1);
        k += 1;
    }
    assert(string_views(issues@) =~= sanitize_issues(kv));
    *kb = out;
    issues
}

// ---------------------------------------------------------------------------
// Recent presets
// ---------------------------------------------------------------------------

/// Recent preset entry.
#[derive(Debug, Clone)]
pub struct RecentPreset {
    pub path: String,
    pub name: String,
    /// Unix timestamp
    pub timestamp: i64,
}

pub open spec fn preset_view(p: RecentPreset) -> (Seq<char>, Seq<char>, i64) {
    (p.path@, p.name@, p.timestamp)
}

pub open spec fn presets_view(v: Seq<RecentPreset>) -> Seq<(Seq<char>, Seq<char>, i64)> {
    v.map_values(|p: RecentPreset| preset_view(p))
}

/// The entries whose path differs from `path`, in order.
pub open spec fn without(v: Seq<(Seq<char>, Seq<char>, i64)>, path: Seq<char>) -> Seq<(Seq<char>, Seq<char>, i64)> {
    v.filter(other_path(path))
}

/// The entry is for another path.
pub open spec fn other_path(path: Seq<char>) -> spec_fn((Seq<char>, Seq<char>, i64)) -> bool {
    |e: (Seq<char>, Seq<char>, i64)| e.0 != path
}

/// The list after opening a preset: the new entry first, no other entry for
/// its path, at most `MAX_RECENT_PRESETS` entries.
pub open spec fn recent_after_add(v: Seq<(Seq<char>, Seq<char>, i64)>, entry: (Seq<char>, Seq<char>, i64)) -> Seq<(Seq<char>, Seq<char>, i64)> {
    let all = seq![entry] + without(v, entry.0);
    if all.len() > MAX_RECENT_PRESETS {
        all.take(MAX_RECENT_PRESETS as int)
    } else {
        all
    }
}

/// After a preset is opened it is listed first, no other entry has its path,
/// and at most `MAX_RECENT_PRESETS` entries are kept.
pub proof fn lemma_recent_after_add(v: Seq<(Seq<char>, Seq<char>, i64)>, entry: (Seq<char>, Seq<char>, i64))
    ensures
        recent_after_add(v, entry).len() >= 1,
        recent_after_add(v, entry)[0] == entry,
        recent_after_add(v, entry).len() <= MAX_RECENT_PRESETS,
        forall|k: int| 1 <= k < recent_after_add(v, entry).len() ==> (#[trigger] recent_after_add(v, entry)[k]).0 != entry.0,
{
    let r = recent_after_add(v, entry);
    let w = without(v, entry.0);
    assert forall|k: int| 1 <= k < r.len() implies (#[trigger] r[k]).0 != entry.0 by {
        assert(r[k] == w[k - 1]);
        v.lemma_filter_pred(other_path(entry.0), k - 1);
    }
}

proof fn lemma_presets_view_push(s: Seq<RecentPreset>, x: RecentPreset)
    ensures
        presets_view(s.push(x)) == presets_view(s).push(preset_view(x)),
{
    assert(presets_view(s.push(x)) =~= presets_view(s).push(preset_view(x)));
}

fn copy_preset(p: &RecentPreset) -> (r: RecentPreset)
    ensures
        preset_view(r) == preset_view(*p),
{
    RecentPreset { path: p.path.clone(), name: p.name.clone(), timestamp: p.timestamp }
}

/// Removes every entry for `path`.
pub fn remove_recent_path(recent: &Vec<RecentPreset>, path: &str) -> (r: Vec<RecentPreset>)
    ensures
        presets_view(r@) == without(presets_view(recent@), path@),
{
    let ghost rv = presets_view(recent@);
    let pv = chars_of(path);
    let mut out: Vec<RecentPreset> = Vec::new();
    let mut i: usize = 0;
    while i < recent.len()
        invariant
            i <= recent@.len(),
            rv == presets_view(recent@),
            pv@ == path@,
            presets_view(out@) == without(rv.take(i as int), path@),
        decreases recent@.len() - i,
    {
        proof {
            reveal(Seq::filter);
            assert(rv.take(i + 1).drop_last() =~= rv.take(i as int));
        }
        let p = chars_of(recent[i].path.as_str());
        if !chars_eq(p.as_slice(), pv.as_slice()) {
            out.push(copy_preset(&recent[i]));
            assert(presets_view(out@) =~= without(rv.take(i as int), path@).push(rv[i as int]));
        }
        i += 1;
    }
    assert(rv.take(recent@.len() as int) =~= rv);
    out
}

/// Puts `entry` first, dropping older entries for its path and keeping at
/// most `MAX_RECENT_PRESETS` entries.
pub fn add_recent(recent: &Vec<RecentPreset>, entry: RecentPreset) -> (r: Vec<RecentPreset>)
    ensures
        presets_view(r@) == recent_after_add(presets_view(recent@), preset_view(entry)),
{
    let rest = remove_recent_path(recent, entry.path.as_str());
    let ghost ev = preset_view(entry);
    let mut out: Vec<RecentPreset> = Vec::new();
    out.push(entry);
    let mut i: usize = 0;
    while i < rest.len() && out.len() < MAX_RECENT_PRESETS
        invariant
            i <= rest@.len(),
            out@.len() == i + 1,
            out@.len() <= MAX_RECENT_PRESETS,
            presets_view(out@) == seq![ev] + presets_view(rest@).take(i as int),
        decreases rest@.len() - i,
    {
        let ghost before = out@;
        out.push(copy_preset(&rest[i]));
        proof {
            lemma_presets_view_push(before, out@[before.len() as int]);
            assert(out@ == before.push(out@[before.len() as int]));
            assert(presets_view(rest@).take(i + 1) =~= presets_view(rest@).take(i as int).push(presets_view(rest@)[i as int]));
        }
        assert(presets_view(out@) =~= seq![ev] + presets_view(rest@).take(i + 1));
        i += 1;
    }
    proof {
        let all = seq![ev] + presets_view(rest@);
        if all.len() > MAX_RECENT_PRESETS {
            assert(presets_view(out@) =~= all.take(MAX_RECENT_PRESETS as int));
        } else {
            assert(presets_view(rest@).take(i as int) =~= presets_view(rest@));
        }
    }
    out
}

// ---------------------------------------------------------------------------
// Resources next to a preset
// ---------------------------------------------------------------------------

/// The resource paths a preset refers to.
#[derive(Debug, Clone)]
pub struct ResourcePaths {
    pub audio_dir: String,
    pub names_file_path: String,
    pub screenshot_dir: String,
    pub text_file_path: String,
}

/// What was found in a preset's folder: the `audio` and `screenshots`
/// directories, and the first `names.txt`, `subtitlesPL.txt` and
/// `subtitlesEN.txt` file in the folder or its `subtitles` subfolder.
#[derive(Debug, Clone)]
pub struct FoundResources {
    pub audio_dir: Option<String>,
    pub names_file: Option<String>,
    pub screenshot_dir: Option<String>,
    pub subtitles_pl: Option<String>,
    pub subtitles_en: Option<String>,
}

/// A blank path is filled with what was found, if anything.
pub open spec fn filled(current: Seq<char>, found: Option<String>) -> Seq<char> {
    if trim(current).len() == 0 && found is Some {
        found->0@
    } else {
        current
    }
}

/// Whether the subtitles language has to be asked: the text path is blank
/// and both languages were found.
pub open spec fn asks_subtitle_choice(current: ResourcePaths, found: FoundResources) -> bool {
    trim(current.text_file_path@).len() == 0 && found.subtitles_pl is Some && found.subtitles_en is Some
}

/// The text path after discovery: a blank one takes the only subtitles found.
pub open spec fn discovered_text(current: ResourcePaths, found: FoundResources) -> Seq<char> {
    if trim(current.text_file_path@).len() != 0 {
        current.text_file_path@
    } else {
        match (found.subtitles_pl, found.subtitles_en) {
            (Some(pl), None) => pl@,
            (None, Some(en)) => en@,
            _ => current.text_file_path@,
        }
    }
}

fn is_blank(s: &String) -> (b: bool)
    ensures
        b == (trim(s@).len() == 0),
{
    let t = trim_chars(chars_of(s.as_str()).as_slice());
    t.len() == 0
}

fn fill(current: &String, found: &Option<String>) -> (r: String)
    ensures
        r@ == filled(current@, *found),
{
    if is_blank(current) {
        match found {
            Some(f) => return f.clone(),
            None => {},
        }
    }
    current.clone()
}

/// Fills the blank resource paths of a preset with what was found next to
/// it.  When the text path is blank and subtitles in both languages were
/// found it stays blank and the second result is `true`: the user is asked.
pub fn discover_resources(current: &ResourcePaths, found: &FoundResources) -> (r: (ResourcePaths, bool))
    ensures
        r.0.audio_dir@ == filled(current.audio_dir@, found.audio_dir),
        r.0.names_file_path@ == filled(current.names_file_path@, found.names_file),
        r.0.screenshot_dir@ == filled(current.screenshot_dir@, found.screenshot_dir),
        r.0.text_file_path@ == discovered_text(*current, *found),
        r.1 == asks_subtitle_choice(*current, *found),
{
    let audio_dir = fill(&current.audio_dir, &found.audio_dir);
    let names_file_path = fill(&current.names_file_path, &found.names_file);
    let screenshot_dir = fill(&current.screenshot_dir, &found.screenshot_dir);
    let mut text_file_path = current.text_file_path.clone();
    let mut ask = false;
    if is_blank(&current.text_file_path) {
        match (&found.subtitles_pl, &found.subtitles_en) {
            (Some(_), Some(_)) => {
                ask = true;
            },
            (Some(pl), None) => {
                text_file_path = pl.clone();
            },
            (None, Some(en)) => {
                text_file_path = en.clone();
            },
            (None, None) => {},
        }
    }
    (ResourcePaths { audio_dir, names_file_path, screenshot_dir, text_file_path }, ask)
}

} // verus!
