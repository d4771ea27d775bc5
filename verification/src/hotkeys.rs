//! Hotkey strings: normalization and the whitelists they are checked against.
//!
//! A hotkey is written `mod+mod+key`, case-insensitively, with spaces around
//! the parts allowed.  Modifiers must be `ctrl`, `alt` or `shift`.

use vstd::prelude::*;
use crate::text::{
    append_chars, chars_eq, chars_of, join, lowercase, split_chars, split_on, string_of, to_lowercase,
    trim, trim_chars, lemma_split_on_nonempty,
};

verus! {

// ---------------------------------------------------------------------------
// Whitelists
// ---------------------------------------------------------------------------

pub open spec fn allowed_modifiers() -> Seq<Seq<char>> {
    seq!["ctrl"@, "alt"@, "shift"@]
}

/// The modifiers in alphabetical order.
pub open spec fn modifiers_alphabetical() -> Seq<Seq<char>> {
    seq!["alt"@, "ctrl"@, "shift"@]
}

pub open spec fn reserved_hotkeys() -> Seq<Seq<char>> {
    seq!["alt+tab"@, "alt+f4"@, "ctrl+alt+del"@, "ctrl+shift+esc"@]
}

/// Keys that may be bound: letters, digits, function keys and a few special
/// keys.
pub open spec fn allowed_keys() -> Seq<Seq<char>> {
    seq![
        "a"@, "b"@, "c"@, "d"@, "e"@, "f"@, "g"@, "h"@, "i"@, "j"@, "k"@, "l"@, "m"@,
        "n"@, "o"@, "p"@, "q"@, "r"@, "s"@, "t"@, "u"@, "v"@, "w"@, "x"@, "y"@, "z"@,
        "0"@, "1"@, "2"@, "3"@, "4"@, "5"@, "6"@, "7"@, "8"@, "9"@,
        "f1"@, "f2"@, "f3"@, "f4"@, "f5"@, "f6"@, "f7"@, "f8"@, "f9"@, "f10"@, "f11"@, "f12"@,
        "home"@, "end"@, "insert"@, "delete"@, "page_up"@, "page_down"@,
        "tab"@, "backspace"@, "space"@,
        "`"@, "_"@, "'"@,
    ]
}

pub(crate) fn str_list(items: &[&str]) -> (v: Vec<Vec<char>>)
    ensures
        v@.len() == items@.len(),
        forall|k: int| 0 <= k < items@.len() ==> #[trigger] v@[k]@ == items@[k]@,
{
    let mut v: Vec<Vec<char>> = Vec::new();
    let mut i: usize = 0;
    while i < items.len()
        invariant
            i <= items@.len(),
            v@.len() == i,
            forall|k: int| 0 <= k < i ==> #[trigger] v@[k]@ == items@[k]@,
        decreases items@.len() - i,
    {
        v.push(chars_of(items[i]));
        i += 1;
    }
    v
}

pub fn allowed_modifiers_exec() -> (v: Vec<Vec<char>>)
    ensures
        v@.map_values(|x: Vec<char>| x@) == allowed_modifiers(),
{
    let items = ["ctrl", "alt", "shift"];
    let v = str_list(&items);
    assert(v@.map_values(|x: Vec<char>| x@) =~= allowed_modifiers());
    v
}

pub fn modifiers_alphabetical_exec() -> (v: Vec<Vec<char>>)
    ensures
        v@.map_values(|x: Vec<char>| x@) == modifiers_alphabetical(),
{
    let items = ["alt", "ctrl", "shift"];
    let v = str_list(&items);
    assert(v@.map_values(|x: Vec<char>| x@) =~= modifiers_alphabetical());
    v
}

pub fn reserved_hotkeys_exec() -> (v: Vec<Vec<char>>)
    ensures
        v@.map_values(|x: Vec<char>| x@) == reserved_hotkeys(),
{
    let items = ["alt+tab", "alt+f4", "ctrl+alt+del", "ctrl+shift+esc"];
    let v = str_list(&items);
    assert(v@.map_values(|x: Vec<char>| x@) =~= reserved_hotkeys());
    v
}

pub fn allowed_keys_exec() -> (v: Vec<Vec<char>>)
    ensures
        v@.map_values(|x: Vec<char>| x@) == allowed_keys(),
{
    let items = [
        "a", "b", "c", "d", "e", "f", "g", "h", "i", "j", "k", "l", "m",
        "n", "o", "p", "q", "r", "s", "t", "u", "v", "w", "x", "y", "z",
        "0", "1", "2", "3", "4", "5", "6", "7", "8", "9",
        "f1", "f2", "f3", "f4", "f5", "f6", "f7", "f8", "f9", "f10", "f11", "f12",
        "home", "end", "insert", "delete", "page_up", "page_down",
        "tab", "backspace", "space",
        "`", "_", "'",
    ];
    let v = str_list(&items);
    assert(v@.map_values(|x: Vec<char>| x@) =~= allowed_keys());
    v
}

/// Whether `s` is one of `list`.
pub fn list_contains(list: &Vec<Vec<char>>, s: &[char]) -> (b: bool)
    ensures
        b == list@.map_values(|x: Vec<char>| x@).contains(s@),
{
    let ghost views = list@.map_values(|x: Vec<char>| x@);
    let mut i: usize = 0;
    while i < list.len()
        invariant
            i <= list@.len(),
            views == list@.map_values(|x: Vec<char>| x@),
            forall|k: int| 0 <= k < i ==> views[k] != s@,
        decreases list@.len() - i,
    {
        if chars_eq(list[i].as_slice(), s) {
            assert(views[i as int] == s@);
            return true;
        }
        i += 1;
    }
    false
}

// ---------------------------------------------------------------------------
// Normalization
// ---------------------------------------------------------------------------

/// The lower-cased `+`-separated parts, each trimmed.
pub open spec fn hotkey_parts(s: Seq<char>) -> Seq<Seq<char>> {
    split_on(lowercase(s), seq!['+']).map_values(|p: Seq<char>| trim(p))
}

/// The members of `order` that occur in `mods`, in the order of `order`.
pub open spec fn in_order(mods: Seq<Seq<char>>, order: Seq<Seq<char>>) -> Seq<Seq<char>> {
    order.filter(|m: Seq<char>| mods.contains(m))
}

/// `mods` joined with `+`, then `+` and the key (just the key when there are
/// no modifiers).
pub open spec fn assemble(mods: Seq<Seq<char>>, key: Seq<char>) -> Seq<char> {
    let joined = join(mods, seq!['+']);
    if joined.len() == 0 {
        key
    } else {
        joined + seq!['+'] + key
    }
}

pub open spec fn all_allowed(mods: Seq<Seq<char>>) -> bool {
    forall|i: int| 0 <= i < mods.len() ==> allowed_modifiers().contains(#[trigger] mods[i])
}

/// Canonical form used by validation: modifiers in the order ctrl, alt, shift.
/// `None` for an empty string or an unknown modifier.
pub open spec fn normalize_ordered(s: Seq<char>) -> Option<Seq<char>> {
    let parts = hotkey_parts(s);
    let mods = parts.drop_last();
    if s.len() == 0 {
        None
    } else if !all_allowed(mods) {
        None
    } else {
        Some(assemble(in_order(mods, allowed_modifiers()), parts.last()))
    }
}

/// Canonical form used when presets are loaded: modifiers sorted
/// alphabetically without repeats.  `None` for a blank string, an empty part
/// or an unknown modifier.
pub open spec fn normalize_sorted(s: Seq<char>) -> Option<Seq<char>> {
    let parts = hotkey_parts(s);
    let mods = parts.drop_last();
    if trim(s).len() == 0 {
        None
    } else if exists|i: int| 0 <= i < parts.len() && (#[trigger] parts[i]).len() == 0 {
        None
    } else if !all_allowed(mods) {
        None
    } else {
        Some(assemble(in_order(mods, modifiers_alphabetical()), parts.last()))
    }
}

/// The key of a normalized hotkey: what follows the last `+`.
pub open spec fn key_of(normalized: Seq<char>) -> Seq<char> {
    split_on(normalized, seq!['+']).last()
}

/// A hotkey that can be bound: it normalizes, is not reserved, and its key is
/// whitelisted.
pub open spec fn is_bindable(s: Seq<char>) -> bool {
    match normalize_sorted(s) {
        None => false,
        Some(n) => !reserved_hotkeys().contains(n) && allowed_keys().contains(key_of(n)),
    }
}

/// Lower-cases, splits on `+` and trims each part.
fn parts_of(s: &str) -> (r: Vec<Vec<char>>)
    ensures
        r@.map_values(|v: Vec<char>| v@) == hotkey_parts(s@),
        r@.len() >= 1,
        forall|k: int| 0 <= k < r@.len() ==> #[trigger] r@[k]@.len() * 4 <= isize::MAX,
{
    let lower = to_lowercase(s);
    let plus = vec!['+'];
    assert(plus@ =~= seq!['+']);
    let raw = split_chars(lower.as_slice(), plus.as_slice());
    proof {
        lemma_split_on_nonempty(lower@, seq!['+']);
        lemma_split_parts_short(lower@, seq!['+']);
    }
    let ghost raw_spec = split_on(lower@, seq!['+']);
    let mut out: Vec<Vec<char>> = Vec::new();
    let mut i: usize = 0;
    while i < raw.len()
        invariant
            i <= raw@.len() == raw_spec.len(),
            raw_spec == split_on(lower@, seq!['+']),
            lower@ == lowercase(s@),
            forall|k: int| 0 <= k < raw@.len() ==> #[trigger] raw@[k]@ == raw_spec[k],
            forall|k: int| 0 <= k < raw_spec.len() ==> (#[trigger] raw_spec[k]).len() <= lower@.len(),
            lower@.len() * 4 <= isize::MAX,
            out@.len() == i,
            forall|k: int| 0 <= k < i ==> #[trigger] out@[k]@ == trim(raw_spec[k]),
            forall|k: int| 0 <= k < i ==> #[trigger] out@[k]@.len() * 4 <= isize::MAX,
        decreases raw@.len() - i,
    {
        let t = trim_chars(raw[i].as_slice());
        out.push(t);
        i += 1;
    }
    assert(out@.map_values(|v: Vec<char>| v@) =~= hotkey_parts(s@));
    out
}

/// Every piece of a split is no longer than the whole.
pub proof fn lemma_split_parts_short(s: Seq<char>, seps: Seq<char>)
    ensures
        forall|k: int| 0 <= k < split_on(s, seps).len() ==> (#[trigger] split_on(s, seps)[k]).len() <= s.len(),
    decreases s.len(),
{
    lemma_split_on_nonempty(s, seps);
    if s.len() > 0 {
        lemma_split_parts_short(s.drop_last(), seps);
        lemma_split_on_nonempty(s.drop_last(), seps);
    }
}

/// Checks that every part except the last is an allowed modifier.
fn mods_allowed(parts: &Vec<Vec<char>>, allowed: &Vec<Vec<char>>) -> (b: bool)
    requires
        parts@.len() >= 1,
        allowed@.map_values(|x: Vec<char>| x@) == allowed_modifiers(),
    ensures
        b == all_allowed(parts@.map_values(|v: Vec<char>| v@).drop_last()),
{
    let ghost mods = parts@.map_values(|v: Vec<char>| v@).drop_last();
    let n = parts.len() - 1;
    let mut i: usize = 0;
    while i < n
        invariant
            n + 1 == parts@.len(),
            i <= n,
            mods == parts@.map_values(|v: Vec<char>| v@).drop_last(),
            allowed@.map_values(|x: Vec<char>| x@) == allowed_modifiers(),
            forall|k: int| 0 <= k < i ==> allowed_modifiers().contains(#[trigger] mods[k]),
        decreases n - i,
    {
        if !list_contains(allowed, parts[i].as_slice()) {
            assert(!allowed_modifiers().contains(mods[i as int]));
            return false;
        }
        i += 1;
    }
    true
}

/// The members of `order` occurring among the modifier parts, joined as a
/// hotkey with `key`.
fn assemble_exec(parts: &Vec<Vec<char>>, order: &Vec<Vec<char>>) -> (r: Vec<char>)
    requires
        parts@.len() >= 1,
    ensures
        r@ == assemble(
            in_order(parts@.map_values(|v: Vec<char>| v@).drop_last(), order@.map_values(|x: Vec<char>| x@)),
            parts@.map_values(|v: Vec<char>| v@).last(),
        ),
{
    let ghost mods = parts@.map_values(|v: Vec<char>| v@).drop_last();
    let ghost ord = order@.map_values(|x: Vec<char>| x@);
    let n = parts.len() - 1;
    let mut selected: Vec<Vec<char>> = Vec::new();
    let mut i: usize = 0;
    while i < order.len()
        invariant
            n + 1 == parts@.len(),
            i <= order@.len(),
            mods == parts@.map_values(|v: Vec<char>| v@).drop_last(),
            ord == order@.map_values(|x: Vec<char>| x@),
            selected@.map_values(|v: Vec<char>| v@) == ord.take(i as int).filter(|m: Seq<char>| mods.contains(m)),
        decreases order@.len() - i,
    {
        let ghost before = selected@.map_values(|v: Vec<char>| v@);
        // Is order[i] among the modifiers?
        let mut found = false;
        let mut j: usize = 0;
        while j < n
            invariant
                n + 1 == parts@.len(),
                j <= n,
                i < order@.len(),
                mods == parts@.map_values(|v: Vec<char>| v@).drop_last(),
                ord == order@.map_values(|x: Vec<char>| x@),
                found ==> mods.contains(ord[i as int]),
                !found ==> forall|k: int| 0 <= k < j ==> mods[k] != ord[i as int],
            decreases n - j,
        {
            if chars_eq(parts[j].as_slice(), order[i].as_slice()) {
                assert(mods[j as int] == ord[i as int]);
                found = true;
            }
            j += 1;
        }
        proof {
            reveal(Seq::filter);
            assert(ord.take(i + 1).drop_last() =~= ord.take(i as int));
            assert(ord.take(i + 1).last() == ord[i as int]);
        }
        if found {
            let mut copy: Vec<char> = Vec::new();
            append_chars(&mut copy, order[i].as_slice());
            selected.push(copy);
            assert(selected@.map_values(|v: Vec<char>| v@) =~= before.push(ord[i as int]));
        } else {
            assert(!mods.contains(ord[i as int]));
        }
        i += 1;
    }
    assert(ord.take(order@.len() as int) =~= ord);
    let plus = vec!['+'];
    assert(plus@ =~= seq!['+']);
    let mut out = crate::text::join_chars(&selected, 0, plus.as_slice());
    assert(selected@.skip(0).map_values(|v: Vec<char>| v@) =~= selected@.map_values(|v: Vec<char>| v@));
    if out.len() > 0 {
        out.push('+');
    }
    let ghost prefix = out@;
    append_chars(&mut out, parts[n].as_slice());
    proof {
        assert(parts@.map_values(|v: Vec<char>| v@).last() == parts@[n as int]@);
        if prefix.len() == 0 {
            assert(out@ =~= parts@[n as int]@);
        }
    }
    out
}

/// Canonical form with modifiers ordered ctrl, alt, shift.
pub fn normalize_ordered_exec(hotkey: &str) -> (r: Option<Vec<char>>)
    ensures
        r matches Some(v) ==> normalize_ordered(hotkey@) == Some(v@),
        r is None ==> normalize_ordered(hotkey@) is None,
{
    if hotkey.is_empty() {
        return None;
    }
    let parts = parts_of(hotkey);
    let allowed = allowed_modifiers_exec();
    if !mods_allowed(&parts, &allowed) {
        return None;
    }
    Some(assemble_exec(&parts, &allowed))
}

/// Canonical form with modifiers sorted alphabetically.
pub fn normalize_sorted_exec(hotkey: &str) -> (r: Option<Vec<char>>)
    ensures
        r matches Some(v) ==> normalize_sorted(hotkey@) == Some(v@),
        r is None ==> normalize_sorted(hotkey@) is None,
{
    let hv = chars_of(hotkey);
    let t = trim_chars(hv.as_slice());
    if t.len() == 0 {
        return None;
    }
    let parts = parts_of(hotkey);
    let ghost pv = parts@.map_values(|v: Vec<char>| v@);
    let mut i: usize = 0;
    while i < parts.len()
        invariant
            i <= parts@.len(),
            pv == parts@.map_values(|v: Vec<char>| v@),
            pv == hotkey_parts(hotkey@),
            forall|k: int| 0 <= k < i ==> pv[k].len() != 0,
        decreases parts@.len() - i,
    {
        if parts[i].len() == 0 {
            assert(pv[i as int].len() == 0);
            assert(hotkey_parts(hotkey@)[i as int].len() == 0);
            return None;
        }
        i += 1;
    }
    let allowed = allowed_modifiers_exec();
    if !mods_allowed(&parts, &allowed) {
        return None;
    }
    let order = modifiers_alphabetical_exec();
    Some(assemble_exec(&parts, &order))
}

/// The key of a normalized hotkey.
pub fn key_of_exec(normalized: &Vec<char>) -> (r: Vec<char>)
    ensures
        r@ == key_of(normalized@),
{
    let plus = vec!['+'];
    assert(plus@ =~= seq!['+']);
    let pieces = split_chars(normalized.as_slice(), plus.as_slice());
    proof {
        lemma_split_on_nonempty(normalized@, seq!['+']);
    }
    let n = pieces.len();
    let mut r: Vec<char> = Vec::new();
    append_chars(&mut r, pieces[n - 1].as_slice());
    assert(r@ =~= pieces@[n - 1]@);
    r
}

/// Whether a hotkey can be bound (used when presets are loaded).
pub fn is_valid_hotkey(s: &str) -> (b: bool)
    ensures
        b == is_bindable(s@),
{
    match normalize_sorted_exec(s) {
        None => false,
        Some(n) => {
            let reserved = reserved_hotkeys_exec();
            if list_contains(&reserved, n.as_slice()) {
                return false;
            }
            let key = key_of_exec(&n);
            let keys = allowed_keys_exec();
            list_contains(&keys, key.as_slice())
        },
    }
}


// ---------------------------------------------------------------------------
// Key codes and key events
// ---------------------------------------------------------------------------

/// Modifier keys state.
#[derive(Debug, Clone, Copy, Default, PartialEq, Eq, Structural)]
pub struct Modifiers {
    pub ctrl: bool,
    pub alt: bool,
    pub shift: bool,
}

/// A hotkey binding as key events report it: modifiers and virtual-key code.
#[derive(Debug, Clone, Copy, PartialEq, Eq, Structural)]
pub struct ParsedHotkey {
    pub modifiers: Modifiers,
    pub vk_code: u32,
}

/// Why a hotkey string could not be turned into a binding.
#[derive(Debug, Clone, PartialEq, Eq)]
pub enum HotkeyParseError {
    UnknownModifier(String),
    UnknownKey(String),
}

/// Virtual-key codes of the named keys.
pub open spec fn named_keys() -> Seq<(Seq<char>, u32)> {
    seq![
        ("f1"@, 0x70u32), ("f2"@, 0x71u32), ("f3"@, 0x72u32), ("f4"@, 0x73u32),
        ("f5"@, 0x74u32), ("f6"@, 0x75u32), ("f7"@, 0x76u32), ("f8"@, 0x77u32),
        ("f9"@, 0x78u32), ("f10"@, 0x79u32), ("f11"@, 0x7Au32), ("f12"@, 0x7Bu32),
        ("home"@, 0x24u32), ("end"@, 0x23u32), ("insert"@, 0x2Du32), ("delete"@, 0x2Eu32),
        ("page_up"@, 0x21u32), ("page_down"@, 0x22u32), ("tab"@, 0x09u32),
        ("backspace"@, 0x08u32), ("space"@, 0x20u32),
        ("`"@, 0xC0u32), ("_"@, 0xBDu32), ("'"@, 0xDEu32),
    ]
}

/// The code of the first entry named `key`.
pub open spec fn named_code(table: Seq<(Seq<char>, u32)>, key: Seq<char>) -> Option<u32>
    decreases table.len(),
{
    if table.len() == 0 {
        None
    } else if table[0].0 == key {
        Some(table[0].1)
    } else {
        named_code(table.skip(1), key)
    }
}

/// Virtual-key code of a (lower-case) key name: letters map to 0x41.., digits
/// to 0x30.., the named keys to their codes.
pub open spec fn vk_code_of(key: Seq<char>) -> Option<u32> {
    if key.len() == 1 && 'a' <= key[0] <= 'z' {
        Some((0x41 + (key[0] as u32 - 'a' as u32)) as u32)
    } else if key.len() == 1 && '0' <= key[0] <= '9' {
        Some((0x30 + (key[0] as u32 - '0' as u32)) as u32)
    } else {
        named_code(named_keys(), key)
    }
}

/// Turns a key name into its virtual-key code.
pub fn key_name_to_vk(key: &str) -> (r: Result<u32, HotkeyParseError>)
    ensures
        r matches Ok(v) ==> vk_code_of(key@) == Some(v),
        r is Err ==> vk_code_of(key@) is None && (r matches Err(HotkeyParseError::UnknownKey(k)) && k@ == key@),
{
    let k = chars_of(key);
    if k.len() == 1 {
        let c = k[0];
        if 'a' <= c && c <= 'z' {
            return Ok(0x41 + (c as u32 - 'a' as u32));
        }
        if '0' <= c && c <= '9' {
            return Ok(0x30 + (c as u32 - '0' as u32));
        }
    }
    let names = [
        "f1", "f2", "f3", "f4", "f5", "f6", "f7", "f8", "f9", "f10", "f11", "f12",
        "home", "end", "insert", "delete", "page_up", "page_down", "tab", "backspace", "space",
        "`", "_", "'",
    ];
    let codes: [u32; 24] = [
        0x70, 0x71, 0x72, 0x73, 0x74, 0x75, 0x76, 0x77, 0x78, 0x79, 0x7A, 0x7B,
        0x24, 0x23, 0x2D, 0x2E, 0x21, 0x22, 0x09, 0x08, 0x20,
        0xC0, 0xBD, 0xDE,
    ];
    let ghost t = named_keys();
    assert forall|q: int| 0 <= q < 24 implies (#[trigger] t[q]).0 == names@[q]@ && t[q].1 == codes@[q] by {}
    assert(t.skip(0) =~= t);
    let mut i: usize = 0;
    while i < 24
        invariant
            i <= 24,
            t == named_keys(),
            names@.len() == 24,
            codes@.len() == 24,
            forall|q: int| 0 <= q < 24 ==> (#[trigger] t[q]).0 == names@[q]@ && t[q].1 == codes@[q],
            named_code(t, k@) == named_code(t.skip(i as int), k@),
            k@ == key@,
            !(k@.len() == 1 && 'a' <= k@[0] <= 'z'),
            !(k@.len() == 1 && '0' <= k@[0] <= '9'),
        decreases 24 - i,
    {
        assert(t.skip(i as int)[0] == t[i as int]);
        assert(t.skip(i as int).skip(1) =~= t.skip(i + 1));
        let n = chars_of(names[i]);
        if chars_eq(n.as_slice(), k.as_slice()) {
            proof {
                assert(t[i as int].0 == k@);
                assert(named_code(t.skip(i as int), k@) == Some(t[i as int].1));
            }
            return Ok(codes[i]);
        }
        i += 1;
    }
    assert(t.skip(24).len() == 0);
    Err(HotkeyParseError::UnknownKey(string_of(k.as_slice())))
}

/// Each named key maps to its Windows virtual-key code: F1 to F12 to
/// `VK_F1`..`VK_F12` (0x70..0x7B), Home `VK_HOME` 0x24, End `VK_END` 0x23,
/// Insert `VK_INSERT` 0x2D, Delete `VK_DELETE` 0x2E, Page Up `VK_PRIOR` 0x21,
/// Page Down `VK_NEXT` 0x22, Tab `VK_TAB` 0x09, Backspace `VK_BACK` 0x08,
/// Space `VK_SPACE` 0x20, and the backquote, underscore and apostrophe keys to
/// `VK_OEM_3` 0xC0, `VK_OEM_MINUS` 0xBD and `VK_OEM_7` 0xDE.
pub proof fn lemma_named_key_codes()
    ensures
        vk_code_of("f1"@) == Some(0x70u32),
        vk_code_of("f2"@) == Some(0x71u32),
        vk_code_of("f3"@) == Some(0x72u32),
        vk_code_of("f4"@) == Some(0x73u32),
        vk_code_of("f5"@) == Some(0x74u32),
        vk_code_of("f6"@) == Some(0x75u32),
        vk_code_of("f7"@) == Some(0x76u32),
        vk_code_of("f8"@) == Some(0x77u32),
        vk_code_of("f9"@) == Some(0x78u32),
        vk_code_of("f10"@) == Some(0x79u32),
        vk_code_of("f11"@) == Some(0x7Au32),
        vk_code_of("f12"@) == Some(0x7Bu32),
        vk_code_of("home"@) == Some(0x24u32),
        vk_code_of("end"@) == Some(0x23u32),
        vk_code_of("insert"@) == Some(0x2Du32),
        vk_code_of("delete"@) == Some(0x2Eu32),
        vk_code_of("page_up"@) == Some(0x21u32),
        vk_code_of("page_down"@) == Some(0x22u32),
        vk_code_of("tab"@) == Some(0x09u32),
        vk_code_of("backspace"@) == Some(0x08u32),
        vk_code_of("space"@) == Some(0x20u32),
        vk_code_of("`"@) == Some(0xC0u32),
        vk_code_of("_"@) == Some(0xBDu32),
        vk_code_of("'"@) == Some(0xDEu32),
{
    reveal_strlit("f1"); reveal_strlit("f2"); reveal_strlit("f3"); reveal_strlit("f4");
    reveal_strlit("f5"); reveal_strlit("f6"); reveal_strlit("f7"); reveal_strlit("f8");
    reveal_strlit("f9"); reveal_strlit("f10"); reveal_strlit("f11"); reveal_strlit("f12");
    reveal_strlit("home"); reveal_strlit("end"); reveal_strlit("insert"); reveal_strlit("delete");
    reveal_strlit("page_up"); reveal_strlit("page_down"); reveal_strlit("tab");
    reveal_strlit("backspace"); reveal_strlit("space");
    reveal_strlit("`"); reveal_strlit("_"); reveal_strlit("'");
    reveal_with_fuel(named_code, 25);
    // The names told apart by their first characters, and the function keys
    // by their digits.
    assert("f1"@[0] == 'f' && "f2"@[0] == 'f' && "f3"@[0] == 'f' && "f4"@[0] == 'f'
        && "f5"@[0] == 'f' && "f6"@[0] == 'f' && "f7"@[0] == 'f' && "f8"@[0] == 'f'
        && "f9"@[0] == 'f' && "f10"@[0] == 'f' && "f11"@[0] == 'f' && "f12"@[0] == 'f'
        && "home"@[0] == 'h' && "end"@[0] == 'e' && "insert"@[0] == 'i' && "delete"@[0] == 'd'
        && "page_up"@[0] == 'p' && "page_down"@[0] == 'p' && "tab"@[0] == 't'
        && "backspace"@[0] == 'b' && "space"@[0] == 's'
        && "`"@[0] == '`' && "_"@[0] == '_' && "'"@[0] == '\'');
    assert("f1"@[1] == '1' && "f2"@[1] == '2' && "f3"@[1] == '3' && "f4"@[1] == '4'
        && "f5"@[1] == '5' && "f6"@[1] == '6' && "f7"@[1] == '7' && "f8"@[1] == '8'
        && "f9"@[1] == '9' && "f10"@[2] == '0' && "f11"@[2] == '1' && "f12"@[2] == '2');
}

/// No other key name has a code: a name that maps to a virtual-key code is a
/// single lower-case letter or digit, or one of the named keys above.
pub proof fn lemma_known_keys_only(key: Seq<char>)
    ensures
        vk_code_of(key) is Some ==> {
            ||| key.len() == 1 && ('a' <= key[0] <= 'z' || '0' <= key[0] <= '9')
            ||| key == "f1"@ || key == "f2"@ || key == "f3"@ || key == "f4"@
            ||| key == "f5"@ || key == "f6"@ || key == "f7"@ || key == "f8"@
            ||| key == "f9"@ || key == "f10"@ || key == "f11"@ || key == "f12"@
            ||| key == "home"@ || key == "end"@ || key == "insert"@ || key == "delete"@
            ||| key == "page_up"@ || key == "page_down"@ || key == "tab"@
            ||| key == "backspace"@ || key == "space"@
            ||| key == "`"@ || key == "_"@ || key == "'"@
        },
{
    let t = named_keys();
    lemma_named_code_found(t, key);
    if !(key.len() == 1 && ('a' <= key[0] <= 'z' || '0' <= key[0] <= '9')) && named_code(t, key) is Some {
        let q = choose|q: int| 0 <= q < t.len() && #[trigger] t[q].0 == key;
        assert(0 <= q < 24);
    }
}

/// A code found in a table is the code of an entry of that name.
proof fn lemma_named_code_found(table: Seq<(Seq<char>, u32)>, key: Seq<char>)
    ensures
        named_code(table, key) is Some ==> exists|q: int| 0 <= q < table.len() && #[trigger] table[q].0 == key
            && table[q].1 == named_code(table, key)->0,
    decreases table.len(),
{
    if table.len() > 0 && table[0].0 != key {
        lemma_named_code_found(table.skip(1), key);
        if named_code(table, key) is Some {
            let q = choose|q: int| 0 <= q < table.skip(1).len() && #[trigger] table.skip(1)[q].0 == key
                && table.skip(1)[q].1 == named_code(table.skip(1), key)->0;
            assert(table[q + 1] == table.skip(1)[q]);
        }
    }
}

/// A single letter maps to the code of its upper-case ASCII character
/// (`VK_A`..`VK_Z`), a single digit to its own ASCII code (`VK_0`..`VK_9`).
pub proof fn lemma_letter_digit_codes(c: char)
    ensures
        'a' <= c <= 'z' ==> vk_code_of(seq![c]) == Some((c as u32 - 32) as u32),
        '0' <= c <= '9' ==> vk_code_of(seq![c]) == Some(c as u32),
{
}

/// The modifier a part names.
pub open spec fn modifier_of(part: Seq<char>) -> Option<int> {
    if part == "ctrl"@ {
        Some(0)
    } else if part == "alt"@ {
        Some(1)
    } else if part == "shift"@ {
        Some(2)
    } else {
        None
    }
}

/// The parts of a hotkey string as the key-event parser sees them: lower-cased,
/// split on `+`, not trimmed.
pub open spec fn raw_parts(s: Seq<char>) -> Seq<Seq<char>> {
    split_on(lowercase(s), seq!['+'])
}

/// The index of the first modifier part that names no modifier.
pub open spec fn first_unknown_modifier(mods: Seq<Seq<char>>) -> Option<int> {
    if exists|i: int| 0 <= i < mods.len() && modifier_of(#[trigger] mods[i]) is None {
        Some(choose|i: int| 0 <= i < mods.len() && modifier_of(#[trigger] mods[i]) is None
            && forall|j: int| 0 <= j < i ==> modifier_of(#[trigger] mods[j]) is Some)
    } else {
        None
    }
}

pub open spec fn names_modifier(mods: Seq<Seq<char>>, m: Seq<char>) -> bool {
    exists|i: int| 0 <= i < mods.len() && #[trigger] mods[i] == m
}

proof fn lemma_names_modifier_step(mods: Seq<Seq<char>>, i: int, m: Seq<char>)
    requires
        0 <= i < mods.len(),
    ensures
        names_modifier(mods.take(i + 1), m) == (names_modifier(mods.take(i), m) || mods[i] == m),
{
    if mods[i] == m {
        assert(mods.take(i + 1)[i] == m);
    }
    if names_modifier(mods.take(i), m) {
        let q = choose|q: int| 0 <= q < i && #[trigger] mods.take(i)[q] == m;
        assert(mods.take(i + 1)[q] == m);
    }
    if names_modifier(mods.take(i + 1), m) {
        let q = choose|q: int| 0 <= q < i + 1 && #[trigger] mods.take(i + 1)[q] == m;
        if q < i {
            assert(mods.take(i)[q] == m);
        }
    }
}

proof fn lemma_first_unknown(mods: Seq<Seq<char>>, i: int)
    requires
        0 <= i < mods.len(),
        modifier_of(mods[i]) is None,
        forall|j: int| 0 <= j < i ==> modifier_of(#[trigger] mods[j]) is Some,
    ensures
        first_unknown_modifier(mods) == Some(i),
{
    let w = choose|q: int| 0 <= q < mods.len() && modifier_of(#[trigger] mods[q]) is None
        && forall|j: int| 0 <= j < q ==> modifier_of(#[trigger] mods[j]) is Some;
    assert(0 <= i < mods.len() && modifier_of(mods[i]) is None
        && forall|j: int| 0 <= j < i ==> modifier_of(#[trigger] mods[j]) is Some);
    if w < i {
        assert(modifier_of(mods[w]) is Some);
    } else if w > i {
        assert(modifier_of(mods[i]) is Some);
    }
}

/// Parses `mod+mod+key` into a binding.
pub fn parse_hotkey(key_str: &str) -> (r: Result<ParsedHotkey, HotkeyParseError>)
    ensures
        ({
            let parts = raw_parts(key_str@);
            let mods = parts.drop_last();
            match r {
                Ok(p) => {
                    &&& first_unknown_modifier(mods) is None
                    &&& vk_code_of(parts.last()) == Some(p.vk_code)
                    &&& p.modifiers.ctrl == names_modifier(mods, "ctrl"@)
                    &&& p.modifiers.alt == names_modifier(mods, "alt"@)
                    &&& p.modifiers.shift == names_modifier(mods, "shift"@)
                },
                Err(HotkeyParseError::UnknownModifier(m)) => first_unknown_modifier(mods) matches Some(i) && m@ == mods[i],
                Err(HotkeyParseError::UnknownKey(k)) => first_unknown_modifier(mods) is None
                    && vk_code_of(parts.last()) is None && k@ == parts.last(),
            }
        }),
{
    let lower = to_lowercase(key_str);
    let plus = vec!['+'];
    assert(plus@ =~= seq!['+']);
    let parts = split_chars(lower.as_slice(), plus.as_slice());
    proof {
        lemma_split_on_nonempty(lower@, seq!['+']);
    }
    let ghost pv = raw_parts(key_str@);
    let ghost mods = pv.drop_last();
    let n = parts.len() - 1;
    let ctrl_s = chars_of("ctrl");
    let alt_s = chars_of("alt");
    let shift_s = chars_of("shift");
    let mut ctrl = false;
    let mut alt = false;
    let mut shift = false;
    let mut i: usize = 0;
    while i < n
        invariant
            n + 1 == parts@.len(),
            parts@.len() == pv.len(),
            pv == raw_parts(key_str@),
            mods == pv.drop_last(),
            forall|k: int| 0 <= k < parts@.len() ==> #[trigger] parts@[k]@ == pv[k],
            ctrl_s@ == "ctrl"@,
            alt_s@ == "alt"@,
            shift_s@ == "shift"@,
            i <= n,
            forall|j: int| 0 <= j < i ==> modifier_of(#[trigger] mods[j]) is Some,
            ctrl == names_modifier(mods.take(i as int), "ctrl"@),
            alt == names_modifier(mods.take(i as int), "alt"@),
            shift == names_modifier(mods.take(i as int), "shift"@),
        decreases n - i,
    {
        let p = &parts[i];
        assert(p@ == mods[i as int]);
        assert(mods.take(i + 1) =~= mods.take(i as int).push(mods[i as int]));
        if chars_eq(p.as_slice(), ctrl_s.as_slice()) {
            ctrl = true;
        } else if chars_eq(p.as_slice(), alt_s.as_slice()) {
            alt = true;
        } else if chars_eq(p.as_slice(), shift_s.as_slice()) {
            shift = true;
        } else {
            proof {
                lemma_first_unknown(mods, i as int);
            }
            return Err(HotkeyParseError::UnknownModifier(string_of(p.as_slice())));
        }
        proof {
            reveal_strlit("ctrl");
            reveal_strlit("alt");
            reveal_strlit("shift");
            lemma_names_modifier_step(mods, i as int, "ctrl"@);
            lemma_names_modifier_step(mods, i as int, "alt"@);
            lemma_names_modifier_step(mods, i as int, "shift"@);
        }
        i += 1;
    }
    assert(mods.take(n as int) =~= mods);
    let key = string_of(parts[n].as_slice());
    match key_name_to_vk(key.as_str()) {
        Ok(vk) => Ok(ParsedHotkey { modifiers: Modifiers { ctrl, alt, shift }, vk_code: vk }),
        Err(_) => Err(HotkeyParseError::UnknownKey(key)),
    }
}

/// Actions that hotkeys may trigger while the reader is off.
pub open spec fn allowed_when_reader_off() -> Seq<Seq<char>> {
    seq!["toggle_reader"@, "toggle_areas"@, "open_settings"@, "debug_console"@]
}

/// Whether a hotkey action may run: any while the reader is on, only a few
/// while it is off.
pub fn is_action_allowed(action: &str, reader_enabled: bool) -> (b: bool)
    ensures
        b == (reader_enabled || allowed_when_reader_off().contains(action@)),
{
    if reader_enabled {
        return true;
    }
    let list = str_list(&["toggle_reader", "toggle_areas", "open_settings", "debug_console"]);
    assert(list@.map_values(|x: Vec<char>| x@) =~= allowed_when_reader_off());
    let a = chars_of(action);
    list_contains(&list, a.as_slice())
}

/// The action of the first binding for the pressed combination.
pub open spec fn bound_action(bindings: Seq<(Seq<char>, ParsedHotkey)>, pressed: ParsedHotkey) -> Option<Seq<char>>
    decreases bindings.len(),
{
    if bindings.len() == 0 {
        None
    } else if bindings[0].1 == pressed {
        Some(bindings[0].0)
    } else {
        bound_action(bindings.skip(1), pressed)
    }
}

pub open spec fn bindings_view(b: Seq<(String, ParsedHotkey)>) -> Seq<(Seq<char>, ParsedHotkey)> {
    b.map_values(|e: (String, ParsedHotkey)| (e.0@, e.1))
}

/// The parsed bindings, in input order; strings that do not parse are left out.
pub open spec fn parsed_bindings(kb: Seq<(Seq<char>, Seq<char>)>) -> Seq<(Seq<char>, ParsedHotkey)>
    decreases kb.len(),
{
    if kb.len() == 0 {
        Seq::empty()
    } else {
        let rest = parsed_bindings(kb.drop_last());
        match parse_result(kb.last().1) {
            Some(p) => rest.push((kb.last().0, p)),
            None => rest,
        }
    }
}

/// The binding a hotkey string parses to, if any.
pub open spec fn parse_result(s: Seq<char>) -> Option<ParsedHotkey> {
    let parts = raw_parts(s);
    let mods = parts.drop_last();
    if first_unknown_modifier(mods) is None && vk_code_of(parts.last()) is Some {
        Some(ParsedHotkey {
            modifiers: Modifiers {
                ctrl: names_modifier(mods, "ctrl"@),
                alt: names_modifier(mods, "alt"@),
                shift: names_modifier(mods, "shift"@),
            },
            vk_code: vk_code_of(parts.last())->0,
        })
    } else {
        None
    }
}

/// Time after which a missed key release no longer blocks hotkeys, in ns.
pub const KEY_RELEASE_TIMEOUT_NS: u64 = 2_000_000_000;
/// Minimum time between two actions, in ns.
pub const ACTION_DEBOUNCE_NS: u64 = 250_000_000;
/// Minimum wall-clock gap between two dispatches, in ms.
pub const DISPATCH_GAP_MS: u64 = 300;

/// Time from `t` to `now`, zero if `now` is earlier.
pub open spec fn elapsed(t: u64, now: u64) -> int {
    if now >= t { now - t } else { 0 }
}

/// Decides which key presses trigger actions: bindings, the reader state,
/// the debounce window and the wait for a key release after each action.
pub struct HotkeyDispatcher {
    pub bindings: Vec<(String, ParsedHotkey)>,
    /// Monotonic time (ns) of the last action.
    pub last_action_ns: Option<u64>,
    pub wait_for_key_release: bool,
    pub reader_enabled: bool,
    /// Wall-clock time (ms) of the last dispatch attempt.
    pub last_dispatch_ms: u64,
}

fn parse_all(key_bindings: &Vec<(String, String)>) -> (r: Vec<(String, ParsedHotkey)>)
    ensures
        bindings_view(r@) == parsed_bindings(key_bindings@.map_values(|b: (String, String)| (b.0@, b.1@))),
{
    let ghost kv = key_bindings@.map_values(|b: (String, String)| (b.0@, b.1@));
    let mut r: Vec<(String, ParsedHotkey)> = Vec::new();
    let mut i: usize = 0;
    while i < key_bindings.len()
        invariant
            i <= key_bindings@.len(),
            kv == key_bindings@.map_values(|b: (String, String)| (b.0@, b.1@)),
            bindings_view(r@) == parsed_bindings(kv.take(i as int)),
        decreases key_bindings@.len() - i,
    {
        assert(kv.take(i + 1).drop_last() =~= kv.take(i as int));
        assert(kv.take(i + 1).last() == kv[i as int]);
        let ghost before = r@;
        match parse_hotkey(key_bindings[i].1.as_str()) {
            Ok(p) => {
                r.push((key_bindings[i].0.clone(), p));
                assert(bindings_view(r@) =~= bindings_view(before).push((kv[i as int].0, p)));
            },
            Err(_) => {},
        }
        i += 1;
    }
    assert(kv.take(key_bindings@.len() as int) =~= kv);
    r
}

impl HotkeyDispatcher {
    /// A dispatcher for the bindings that parse (the others are skipped),
    /// with the reader off.
    pub fn new(key_bindings: &Vec<(String, String)>) -> (d: Self)
        ensures
            bindings_view(d.bindings@) == parsed_bindings(key_bindings@.map_values(|b: (String, String)| (b.0@, b.1@))),
            d.last_action_ns is None,
            !d.wait_for_key_release,
            !d.reader_enabled,
            d.last_dispatch_ms == 0,
    {
        HotkeyDispatcher {
            bindings: parse_all(key_bindings),
            last_action_ns: None,
            wait_for_key_release: false,
            reader_enabled: false,
            last_dispatch_ms: 0,
        }
    }

    /// Replaces the bindings.
    pub fn update_bindings(&mut self, key_bindings: &Vec<(String, String)>)
        ensures
            bindings_view(final(self).bindings@) == parsed_bindings(key_bindings@.map_values(|b: (String, String)| (b.0@, b.1@))),
            final(self).last_action_ns == old(self).last_action_ns,
            final(self).wait_for_key_release == old(self).wait_for_key_release,
            final(self).reader_enabled == old(self).reader_enabled,
            final(self).last_dispatch_ms == old(self).last_dispatch_ms,
    {
        self.bindings = parse_all(key_bindings);
    }

    /// Sets whether the reader is running.
    pub fn set_reader_enabled(&mut self, enabled: bool)
        ensures
            final(self).reader_enabled == enabled,
            final(self).bindings@ == old(self).bindings@,
            final(self).last_action_ns == old(self).last_action_ns,
            final(self).wait_for_key_release == old(self).wait_for_key_release,
            final(self).last_dispatch_ms == old(self).last_dispatch_ms,
    {
        self.reader_enabled = enabled;
    }

    fn find_action(&self, pressed: ParsedHotkey) -> (r: Option<String>)
        ensures
            r matches Some(a) ==> bound_action(bindings_view(self.bindings@), pressed) == Some(a@),
            r is None ==> bound_action(bindings_view(self.bindings@), pressed) is None,
    {
        let ghost bv = bindings_view(self.bindings@);
        assert(bv.skip(0) =~= bv);
        let mut i: usize = 0;
        while i < self.bindings.len()
            invariant
                i <= self.bindings@.len(),
                bv == bindings_view(self.bindings@),
                bound_action(bv, pressed) == bound_action(bv.skip(i as int), pressed),
            decreases self.bindings@.len() - i,
        {
            assert(bv.skip(i as int)[0] == bv[i as int]);
            assert(bv.skip(i as int).skip(1) =~= bv.skip(i + 1));
            if self.bindings[i].1 == pressed {
                return Some(self.bindings[i].0.clone());
            }
            i += 1;
        }
        assert(bv.skip(self.bindings@.len() as int).len() == 0);
        None
    }

    /// A key went down at monotonic time `now_ns` (wall clock `wall_ms`).
    /// Returns the action to run, if any.  A missed key release stops
    /// blocking after two seconds; an action runs when its combination is
    /// bound, it is allowed in the current reader state, the last action is
    /// at least 250 ms old and the last dispatch more than 300 ms old (wall
    /// clock, wrapping); the dispatch time is recorded whenever the debounce
    /// passes, and after an action the next one waits for a key release.
    pub fn key_down(&mut self, vk_code: u32, modifiers: Modifiers, now_ns: u64, wall_ms: u64) -> (r: Option<String>)
        ensures
            ({
                let released = old(self).wait_for_key_release
                    && (old(self).last_action_ns matches Some(t) && elapsed(t, now_ns) >= KEY_RELEASE_TIMEOUT_NS);
                let waiting = old(self).wait_for_key_release && !released;
                let found = bound_action(bindings_view(old(self).bindings@), ParsedHotkey { modifiers, vk_code });
                let allowed = found matches Some(a) && (old(self).reader_enabled || allowed_when_reader_off().contains(a));
                let debounced = match old(self).last_action_ns {
                    Some(t) => elapsed(t, now_ns) >= ACTION_DEBOUNCE_NS,
                    None => true,
                };
                let attempt = !waiting && allowed && debounced;
                let gap = if wall_ms >= old(self).last_dispatch_ms {
                    wall_ms - old(self).last_dispatch_ms
                } else {
                    wall_ms - old(self).last_dispatch_ms + 0x1_0000_0000_0000_0000
                };
                let fire = attempt && gap > DISPATCH_GAP_MS;
                &&& final(self).bindings@ == old(self).bindings@
                &&& final(self).reader_enabled == old(self).reader_enabled
                &&& final(self).last_dispatch_ms == if attempt { wall_ms } else { old(self).last_dispatch_ms }
                &&& final(self).last_action_ns == if fire { Some(now_ns) } else { old(self).last_action_ns }
                &&& final(self).wait_for_key_release == (fire || waiting)
                &&& (fire ==> (r matches Some(a) && found == Some(a@)))
                &&& (!fire ==> r is None)
            }),
    {
        if self.wait_for_key_release {
            if let Some(t) = self.last_action_ns {
                let e = if now_ns >= t { now_ns - t } else { 0 };
                if e >= KEY_RELEASE_TIMEOUT_NS {
                    self.wait_for_key_release = false;
                }
            }
        }
        if self.wait_for_key_release {
            return None;
        }
        let pressed = ParsedHotkey { modifiers, vk_code };
        let action = match self.find_action(pressed) {
            Some(a) => a,
            None => return None,
        };
        if !is_action_allowed(action.as_str(), self.reader_enabled) {
            return None;
        }
        let ok = match self.last_action_ns {
            Some(t) => {
                let e = if now_ns >= t { now_ns - t } else { 0 };
                e >= ACTION_DEBOUNCE_NS
            },
            None => true,
        };
        if !ok {
            return None;
        }
        let prev = self.last_dispatch_ms;
        self.last_dispatch_ms = wall_ms;
        if wall_ms.wrapping_sub(prev) > DISPATCH_GAP_MS {
            self.last_action_ns = Some(now_ns);
            self.wait_for_key_release = true;
            Some(action)
        } else {
            None
        }
    }

    /// A key went up: hotkeys are no longer blocked.
    pub fn key_up(&mut self)
        ensures
            !final(self).wait_for_key_release,
            final(self).bindings@ == old(self).bindings@,
            final(self).reader_enabled == old(self).reader_enabled,
            final(self).last_action_ns == old(self).last_action_ns,
            final(self).last_dispatch_ms == old(self).last_dispatch_ms,
    {
        self.wait_for_key_release = false;
    }
}

} // verus!
