//! Configuration validation: capture mode, resolution string and hotkeys.

use vstd::prelude::*;
use crate::hotkeys::{
    allowed_keys, allowed_keys_exec, key_of, key_of_exec, list_contains, normalize_ordered,
    normalize_ordered_exec, reserved_hotkeys, reserved_hotkeys_exec,
};
use crate::resolution::{resolution_parts, resolution_parts_exec};
use crate::text::{append_chars, chars_eq, chars_of, slice_to_vec_range, starts_with, starts_with_chars, string_of};

verus! {

/// One validation error: the technical field name and a message.
#[derive(Debug, Clone, PartialEq)]
pub struct ValidationError {
    pub field: String,
    pub message: String,
}

impl ValidationError {
    pub fn new(field: String, message: String) -> (e: Self)
        ensures
            e.field@ == field@,
            e.message@ == message@,
    {
        ValidationError { field, message }
    }
}

/// All errors found, in the order the checks ran.
#[derive(Debug, Clone, PartialEq)]
pub struct ValidationResult {
    pub errors: Vec<ValidationError>,
}

pub open spec fn error_views(errors: Seq<ValidationError>) -> Seq<(Seq<char>, Seq<char>)> {
    errors.map_values(|e: ValidationError| (e.field@, e.message@))
}

impl ValidationResult {
    /// A result with no errors.
    pub fn new() -> (r: Self)
        ensures
            r.errors@.len() == 0,
    {
        ValidationResult { errors: Vec::new() }
    }

    /// Appends an error.
    pub fn add_error(&mut self, field: String, message: String)
        ensures
            error_views(final(self).errors@) == error_views(old(self).errors@).push((field@, message@)),
    {
        self.errors.push(ValidationError::new(field, message));
        assert(error_views(self.errors@) =~= error_views(old(self).errors@).push((field@, message@)));
    }

    /// True when no error was found.
    pub fn is_valid(&self) -> (b: bool)
        ensures
            b == (self.errors@.len() == 0),
    {
        self.errors.len() == 0
    }

    /// `field: message` of the first error, if any.
    pub fn first_error_message(&self) -> (r: Option<String>)
        ensures
            self.errors@.len() == 0 ==> r is None,
            self.errors@.len() > 0 ==> (r matches Some(s) && s@ == self.errors@[0].field@ + ": "@
                + self.errors@[0].message@),
    {
        if self.errors.len() == 0 {
            return None;
        }
        let e = &self.errors[0];
        let mut v = chars_of(e.field.as_str());
        let sep = chars_of(": ");
        append_chars(&mut v, sep.as_slice());
        let m = chars_of(e.message.as_str());
        append_chars(&mut v, m.as_slice());
        Some(string_of(v.as_slice()))
    }
}

/// Whether the reader may start: not while it runs, and not with a failed
/// validation, whose first error (`field: message`) is then the reason.
pub fn reader_start_check(is_running: bool, validation: &ValidationResult) -> (r: Result<(), String>)
    ensures
        is_running ==> (r matches Err(s) && s@ == "Pipeline is already running"@),
        !is_running && validation.errors@.len() == 0 ==> r is Ok,
        !is_running && validation.errors@.len() > 0 ==> (r matches Err(s) && s@ == validation.errors@[0].field@
            + ": "@ + validation.errors@[0].message@),
{
    if is_running {
        return Err("Pipeline is already running".to_string());
    }
    if !validation.is_valid() {
        let msg = match validation.first_error_message() {
            Some(m) => m,
            None => "Validation failed".to_string(),
        };
        return Err(msg);
    }
    Ok(())
}

impl Default for ValidationResult {
    fn default() -> (r: Self)
        ensures
            r.errors@.len() == 0,
    {
        ValidationResult::new()
    }
}

// ---------------------------------------------------------------------------
// Friendly field labels
// ---------------------------------------------------------------------------

/// Display labels of the configuration fields.
pub open spec fn friendly_table() -> Seq<(Seq<char>, Seq<char>)> {
    seq![
        ("audio_dir"@, "Folder audio"@),
        ("text_file_path"@, "Plik tekstowy"@),
        ("names_file_path"@, "Plik z imionami"@),
        ("screenshot_dir"@, "Folder zrzutów ekranu"@),
        ("capture_mode"@, "Tryb przechwytywania"@),
        ("capture_window_query"@, "Okno gry"@),
        ("capture_interval"@, "Interwał przechwytywania"@),
        ("resolution"@, "Rozdzielczość"@),
        ("resolution_downscale"@, "Skalowanie rozdzielczości"@),
        ("min_height"@, "Min. wysokość tekstu"@),
        ("max_height"@, "Maks. wysokość tekstu"@),
        ("base_playback_speed"@, "Prędkość bazowa"@),
        ("overlap_playback_speed"@, "Prędkość doganiania"@),
        ("volume_reduction_level"@, "Redukcja głośności gry"@),
        ("reader_volume"@, "Głośność lektora"@),
        ("audio_queue_size"@, "Rozmiar kolejki dialogów"@),
    ]
}

/// The label of the first table row for `field`, if any.
pub open spec fn table_label(table: Seq<(Seq<char>, Seq<char>)>, field: Seq<char>) -> Option<Seq<char>>
    decreases table.len(),
{
    if table.len() == 0 {
        None
    } else if table[0].0 == field {
        Some(table[0].1)
    } else {
        table_label(table.skip(1), field)
    }
}

/// Label shown to the user for a configuration field: `Skrót (action)` for a
/// key binding, the table's label, or the field name itself.
pub open spec fn friendly_label(field: Seq<char>) -> Seq<char> {
    let prefix = "key_bindings."@;
    if starts_with(field, prefix) {
        "Skrót ("@ + field.skip(prefix.len() as int) + ")"@
    } else {
        match table_label(friendly_table(), field) {
            Some(l) => l,
            None => field,
        }
    }
}

/// Maps a technical field name to its display label.
pub fn friendly_field(field: &str) -> (r: String)
    ensures
        r@ == friendly_label(field@),
{
    let f = chars_of(field);
    let prefix = chars_of("key_bindings.");
    if starts_with_chars(f.as_slice(), prefix.as_slice()) {
        let mut v = chars_of("Skrót (");
        let rest = slice_to_vec_range(f.as_slice(), prefix.len(), f.len());
        assert(rest@ =~= f@.skip(prefix@.len() as int));
        append_chars(&mut v, rest.as_slice());
        let close = chars_of(")");
        append_chars(&mut v, close.as_slice());
        return string_of(v.as_slice());
    }
    let keys = [
        "audio_dir", "text_file_path", "names_file_path", "screenshot_dir", "capture_mode",
        "capture_window_query", "capture_interval", "resolution", "resolution_downscale",
        "min_height", "max_height", "base_playback_speed", "overlap_playback_speed",
        "volume_reduction_level", "reader_volume", "audio_queue_size",
    ];
    let labels = [
        "Folder audio", "Plik tekstowy", "Plik z imionami", "Folder zrzutów ekranu",
        "Tryb przechwytywania", "Okno gry", "Interwał przechwytywania", "Rozdzielczość",
        "Skalowanie rozdzielczości", "Min. wysokość tekstu", "Maks. wysokość tekstu",
        "Prędkość bazowa", "Prędkość doganiania", "Redukcja głośności gry", "Głośność lektora",
        "Rozmiar kolejki dialogów",
    ];
    let ghost table = friendly_table();
    assert(keys@.len() == 16 && labels@.len() == 16);
    assert forall|k: int| 0 <= k < 16 implies (#[trigger] table[k]).0 == keys@[k]@ && table[k].1 == labels@[k]@ by {}
    assert(table.skip(0) =~= table);
    let mut i: usize = 0;
    while i < 16
        invariant
            !starts_with(f@, "key_bindings."@),
            i <= 16,
            keys@.len() == 16,
            labels@.len() == 16,
            table == friendly_table(),
            table.len() == 16,
            forall|k: int| 0 <= k < 16 ==> (#[trigger] table[k]).0 == keys@[k]@ && table[k].1 == labels@[k]@,
            table_label(table, f@) == table_label(table.skip(i as int), f@),
            f@ == field@,
        decreases 16 - i,
    {
        let key = chars_of(keys[i]);
        assert(table.skip(i as int)[0] == table[i as int]);
        assert(table.skip(i as int).skip(1) =~= table.skip(i + 1));
        if chars_eq(key.as_slice(), f.as_slice()) {
            return labels[i].to_owned();
        }
        i += 1;
    }
    assert(table.skip(16).len() == 0);
    field.to_owned()
}

// ---------------------------------------------------------------------------
// Hotkey messages
// ---------------------------------------------------------------------------

pub open spec fn msg_invalid_hotkey(hotkey: Seq<char>) -> Seq<char> {
    "Invalid hotkey format or invalid modifier: '"@ + hotkey + "'"@
}

pub open spec fn msg_reserved(n: Seq<char>) -> Seq<char> {
    "Hotkey '"@ + n + "' is reserved by the system and cannot be used"@
}

pub open spec fn msg_key_not_allowed(key: Seq<char>) -> Seq<char> {
    "Key '"@ + key
        + "' is not allowed. Only alphanumeric, function (f1-f12) and special keys (home, end, insert, delete, page_up, page_down) are allowed"@
}

pub open spec fn msg_duplicate(n: Seq<char>, other: Seq<char>) -> Seq<char> {
    "Hotkey '"@ + n + "' is already assigned to action '"@ + other + "'"@
}

/// The action a normalized hotkey was first assigned to.
pub open spec fn assigned_to(seen: Seq<(Seq<char>, Seq<char>)>, n: Seq<char>) -> Option<Seq<char>>
    decreases seen.len(),
{
    if seen.len() == 0 {
        None
    } else if seen[0].0 == n {
        Some(seen[0].1)
    } else {
        assigned_to(seen.skip(1), n)
    }
}

/// Errors and hotkey assignments after the first `k` bindings.
pub open spec fn hotkey_check(bindings: Seq<(Seq<char>, Seq<char>)>, k: int) -> (
    Seq<(Seq<char>, Seq<char>)>,
    Seq<(Seq<char>, Seq<char>)>,
)
    decreases k,
{
    if k <= 0 {
        (Seq::empty(), Seq::empty())
    } else {
        let (errs, seen) = hotkey_check(bindings, k - 1);
        let action = bindings[k - 1].0;
        let hotkey = bindings[k - 1].1;
        let field = "key_bindings."@ + action;
        if hotkey.len() == 0 {
            (errs, seen)
        } else {
            match normalize_ordered(hotkey) {
                None => (errs.push((field, msg_invalid_hotkey(hotkey))), seen),
                Some(n) => if reserved_hotkeys().contains(n) {
                    (errs.push((field, msg_reserved(n))), seen)
                } else if !allowed_keys().contains(key_of(n)) {
                    (errs.push((field, msg_key_not_allowed(key_of(n)))), seen)
                } else {
                    match assigned_to(seen, n) {
                        Some(other) => (errs.push((field, msg_duplicate(n, other))), seen),
                        None => (errs, seen.push((n, action))),
                    }
                },
            }
        }
    }
}

proof fn lemma_assigned_after_push(seen: Seq<(Seq<char>, Seq<char>)>, x: (Seq<char>, Seq<char>), n: Seq<char>)
    ensures
        assigned_to(seen, n) is Some ==> assigned_to(seen.push(x), n) is Some,
        x.0 == n ==> assigned_to(seen.push(x), n) is Some,
    decreases seen.len(),
{
    if seen.len() > 0 {
        assert(seen.push(x).skip(1) =~= seen.skip(1).push(x));
        lemma_assigned_after_push(seen.skip(1), x, n);
    } else {
        assert(seen.push(x)[0] == x);
    }
}

/// Once a hotkey is assigned it stays assigned, and the errors reported so
/// far stay reported, as more bindings are checked.
proof fn lemma_hotkey_check_grows(b: Seq<(Seq<char>, Seq<char>)>, k1: int, k2: int, n: Seq<char>, e: (Seq<char>, Seq<char>))
    requires
        0 <= k1 <= k2,
    ensures
        assigned_to(hotkey_check(b, k1).1, n) is Some ==> assigned_to(hotkey_check(b, k2).1, n) is Some,
        hotkey_check(b, k1).0.contains(e) ==> hotkey_check(b, k2).0.contains(e),
    decreases k2,
{
    if k2 > k1 {
        lemma_hotkey_check_grows(b, k1, k2 - 1, n, e);
        let (errs, seen) = hotkey_check(b, k2 - 1);
        lemma_assigned_after_push(seen, (n, b[k2 - 1].0), n);
        match normalize_ordered(b[k2 - 1].1) {
            Some(m) => lemma_assigned_after_push(seen, (m, b[k2 - 1].0), n),
            None => {},
        }
        if errs.contains(e) {
            let q = choose|q: int| 0 <= q < errs.len() && errs[q] == e;
            assert(hotkey_check(b, k2).0[q] == e);
        }
    }
}

/// A hotkey used by two bindings is reported on the later one: when the
/// bindings `i < j` carry hotkeys with the same canonical form, allowed and
/// not reserved, the errors hold a duplicate error for binding `j`'s action,
/// naming the action the hotkey was first assigned to.
pub proof fn lemma_duplicate_hotkey_reported(b: Seq<(Seq<char>, Seq<char>)>, i: int, j: int, n: Seq<char>)
    requires
        0 <= i < j < b.len(),
        b[i].1.len() > 0,
        b[j].1.len() > 0,
        normalize_ordered(b[i].1) == Some(n),
        normalize_ordered(b[j].1) == Some(n),
        !reserved_hotkeys().contains(n),
        allowed_keys().contains(key_of(n)),
    ensures
        exists|other: Seq<char>| #[trigger] hotkey_check(b, b.len() as int).0.contains(
            ("key_bindings."@ + b[j].0, msg_duplicate(n, other))),
{
    let seen_i = hotkey_check(b, i).1;
    lemma_assigned_after_push(seen_i, (n, b[i].0), n);
    assert(assigned_to(hotkey_check(b, i + 1).1, n) is Some);
    lemma_hotkey_check_grows(b, i + 1, j, n, (Seq::empty(), Seq::empty()));
    let other = assigned_to(hotkey_check(b, j).1, n)->0;
    let e = ("key_bindings."@ + b[j].0, msg_duplicate(n, other));
    let errs_j = hotkey_check(b, j).0;
    assert(hotkey_check(b, j + 1).0 == errs_j.push(e));
    assert(hotkey_check(b, j + 1).0[errs_j.len() as int] == e);
    lemma_hotkey_check_grows(b, j + 1, b.len() as int, n, e);
}

pub open spec fn binding_views(bindings: Seq<(String, String)>) -> Seq<(Seq<char>, Seq<char>)> {
    bindings.map_values(|b: (String, String)| (b.0@, b.1@))
}

/// Validator for configuration values.
pub struct Validator;

impl Validator {
    /// Only the `"window"` capture mode is supported.
    pub fn validate_capture_config(capture_mode: &str) -> (r: ValidationResult)
        ensures
            capture_mode@ == "window"@ ==> r.errors@.len() == 0,
            capture_mode@ != "window"@ ==> error_views(r.errors@) == seq![
                ("capture_mode"@, "Nieprawidłowy tryb przechwytywania '"@ + capture_mode@
                    + "'. Tylko 'window' jest wspierany."@),
            ],
    {
        let mut result = ValidationResult::new();
        let mode = chars_of(capture_mode);
        let window = chars_of("window");
        if !chars_eq(mode.as_slice(), window.as_slice()) {
            let mut msg = chars_of("Nieprawidłowy tryb przechwytywania '");
            append_chars(&mut msg, mode.as_slice());
            let tail = chars_of("'. Tylko 'window' jest wspierany.");
            append_chars(&mut msg, tail.as_slice());
            result.add_error("capture_mode".to_owned(), string_of(msg.as_slice()));
            assert(error_views(result.errors@) =~= seq![
                ("capture_mode"@, "Nieprawidłowy tryb przechwytywania '"@ + capture_mode@
                    + "'. Tylko 'window' jest wspierany."@),
            ]);
        }
        result
    }

    /// The resolution must be `WIDTHxHEIGHT` with both parts in 1..=16000.
    pub fn validate_resolution(resolution: &str) -> (r: ValidationResult)
        ensures
            (resolution_parts(resolution@) matches Some((w, h)) && 0 < w <= 16000 && 0 < h <= 16000)
                ==> r.errors@.len() == 0,
            !(resolution_parts(resolution@) matches Some((w, h)) && 0 < w <= 16000 && 0 < h <= 16000)
                ==> error_views(r.errors@) == seq![
                ("resolution"@,
                "Musi być w formacie SZEROKOŚĆxWYSOKOŚĆ z dodatnimi wartościami (np. 1920x1080), a jest '"@
                    + resolution@ + "'"@),
            ],
    {
        let mut result = ValidationResult::new();
        let valid = match resolution_parts_exec(resolution) {
            Some((w, h)) => w > 0 && h > 0 && w <= 16000 && h <= 16000,
            None => false,
        };
        if !valid {
            let mut msg = chars_of(
                "Musi być w formacie SZEROKOŚĆxWYSOKOŚĆ z dodatnimi wartościami (np. 1920x1080), a jest '",
            );
            let r = chars_of(resolution);
            append_chars(&mut msg, r.as_slice());
            let tail = chars_of("'");
            append_chars(&mut msg, tail.as_slice());
            result.add_error("resolution".to_owned(), string_of(msg.as_slice()));
            assert(error_views(result.errors@) =~= seq![
                ("resolution"@,
                "Musi być w formacie SZEROKOŚĆxWYSOKOŚĆ z dodatnimi wartościami (np. 1920x1080), a jest '"@
                    + resolution@ + "'"@),
            ]);
        }
        result
    }

    /// Canonical form of a hotkey: lower-cased, modifiers ordered ctrl, alt,
    /// shift; `None` for an empty string or an unknown modifier.
    pub fn normalize_hotkey(hotkey: &str) -> (r: Option<String>)
        ensures
            r matches Some(s) ==> normalize_ordered(hotkey@) == Some(s@),
            r is None ==> normalize_ordered(hotkey@) is None,
    {
        match normalize_ordered_exec(hotkey) {
            Some(v) => Some(string_of(v.as_slice())),
            None => None,
        }
    }

    /// Checks the bindings (action, hotkey) in order: empty hotkeys are
    /// skipped; a hotkey that does not normalize, is reserved, has a key off
    /// the whitelist or repeats an earlier one gives one error.
    pub fn validate_hotkeys(bindings: &Vec<(String, String)>) -> (r: ValidationResult)
        ensures
            error_views(r.errors@) == hotkey_check(binding_views(bindings@), bindings@.len() as int).0,
    {
        let ghost bv = binding_views(bindings@);
        let mut result = ValidationResult::new();
        let mut seen: Vec<(Vec<char>, Vec<char>)> = Vec::new();
        let reserved = reserved_hotkeys_exec();
        let keys = allowed_keys_exec();
        let mut i: usize = 0;
        while i < bindings.len()
            invariant
                i <= bindings@.len(),
                bv == binding_views(bindings@),
                reserved@.map_values(|x: Vec<char>| x@) == reserved_hotkeys(),
                keys@.map_values(|x: Vec<char>| x@) == allowed_keys(),
                error_views(result.errors@) == hotkey_check(bv, i as int).0,
                seen@.map_values(|p: (Vec<char>, Vec<char>)| (p.0@, p.1@)) == hotkey_check(bv, i as int).1,
            decreases bindings@.len() - i,
        {
            let action = &bindings[i].0;
            let hotkey = &bindings[i].1;
            assert(bv[i as int] == (action@, hotkey@));
            let mut field = chars_of("key_bindings.");
            let av = chars_of(action.as_str());
            append_chars(&mut field, av.as_slice());
            let ghost seen_before = seen@.map_values(|p: (Vec<char>, Vec<char>)| (p.0@, p.1@));
            if hotkey.as_str().is_empty() {
                i += 1;
                continue;
            }
            match normalize_ordered_exec(hotkey.as_str()) {
                None => {
                    let mut msg = chars_of("Invalid hotkey format or invalid modifier: '");
                    let hv = chars_of(hotkey.as_str());
                    append_chars(&mut msg, hv.as_slice());
                    let tail = chars_of("'");
                    append_chars(&mut msg, tail.as_slice());
                    result.add_error(string_of(field.as_slice()), string_of(msg.as_slice()));
                },
                Some(n) => {
                    if list_contains(&reserved, n.as_slice()) {
                        let mut msg = chars_of("Hotkey '");
                        append_chars(&mut msg, n.as_slice());
                        let tail = chars_of("' is reserved by the system and cannot be used");
                        append_chars(&mut msg, tail.as_slice());
                        result.add_error(string_of(field.as_slice()), string_of(msg.as_slice()));
                    } else {
                        let key = key_of_exec(&n);
                        if !list_contains(&keys, key.as_slice()) {
                            let mut msg = chars_of("Key '");
                            append_chars(&mut msg, key.as_slice());
                            let tail = chars_of(
                                "' is not allowed. Only alphanumeric, function (f1-f12) and special keys (home, end, insert, delete, page_up, page_down) are allowed",
                            );
                            append_chars(&mut msg, tail.as_slice());
                            result.add_error(string_of(field.as_slice()), string_of(msg.as_slice()));
                        } else {
                            match Self::lookup(&seen, &n) {
                                Some(other) => {
                                    let mut msg = chars_of("Hotkey '");
                                    append_chars(&mut msg, n.as_slice());
                                    let mid = chars_of("' is already assigned to action '");
                                    append_chars(&mut msg, mid.as_slice());
                                    append_chars(&mut msg, other.as_slice());
                                    let tail = chars_of("'");
                                    append_chars(&mut msg, tail.as_slice());
                                    result.add_error(string_of(field.as_slice()), string_of(msg.as_slice()));
                                },
                                None => {
                                    seen.push((n, av));
                                    assert(seen@.map_values(|p: (Vec<char>, Vec<char>)| (p.0@, p.1@))
                                        =~= seen_before.push((n@, action@)));
                                },
                            }
                        }
                    }
                },
            }
            i += 1;
        }
        result
    }

    fn lookup(seen: &Vec<(Vec<char>, Vec<char>)>, n: &Vec<char>) -> (r: Option<Vec<char>>)
        ensures
            r matches Some(v) ==> assigned_to(seen@.map_values(|p: (Vec<char>, Vec<char>)| (p.0@, p.1@)), n@) == Some(v@),
            r is None ==> assigned_to(seen@.map_values(|p: (Vec<char>, Vec<char>)| (p.0@, p.1@)), n@) is None,
    {
        let ghost sv = seen@.map_values(|p: (Vec<char>, Vec<char>)| (p.0@, p.1@));
        assert(sv.skip(0) =~= sv);
        let mut i: usize = 0;
        while i < seen.len()
            invariant
                i <= seen@.len(),
                sv == seen@.map_values(|p: (Vec<char>, Vec<char>)| (p.0@, p.1@)),
                assigned_to(sv, n@) == assigned_to(sv.skip(i as int), n@),
            decreases seen@.len() - i,
        {
            assert(sv.skip(i as int)[0] == sv[i as int]);
            assert(sv.skip(i as int).skip(1) =~= sv.skip(i + 1));
            if chars_eq(seen[i].0.as_slice(), n.as_slice()) {
                let mut v: Vec<char> = Vec::new();
                append_chars(&mut v, seen[i].1.as_slice());
                assert(v@ =~= sv[i as int].1);
                return Some(v);
            }
            i += 1;
        }
        assert(sv.skip(seen@.len() as int).len() == 0);
        None
    }
}


// ---------------------------------------------------------------------------
// Paths
// ---------------------------------------------------------------------------

/// What the file system reports about a configured path.
#[derive(Debug, Clone, Copy, PartialEq, Eq, Structural)]
pub enum PathKind {
    Missing,
    Directory,
    File,
    Other,
}

/// A configured path as the file system sees it: its kind and its
/// extension (the part of the file name after the last dot, if any).
#[derive(Debug, Clone)]
pub struct PathProbe {
    pub kind: PathKind,
    pub extension: Option<String>,
}

/// An entry of the audio folder.
#[derive(Debug, Clone)]
pub struct DirEntryProbe {
    pub file_name: String,
    pub is_file: bool,
    pub extension: Option<String>,
}

/// A supported audio extension (case ignored).
pub open spec fn audio_ext(ext: Option<String>) -> bool {
    ext matches Some(e) && crate::audio::audio_formats().contains(crate::text::lowercase(e@))
}

pub open spec fn is_txt(ext: Option<String>) -> bool {
    ext matches Some(e) && e@ == "txt"@
}

/// An `output2 (N).ext` audio file.
pub open spec fn is_output2_entry(e: DirEntryProbe) -> bool {
    &&& e.is_file
    &&& starts_with(e.file_name@, "output2 "@)
    &&& e.file_name@.contains('(')
    &&& e.file_name@.contains(')')
    &&& audio_ext(e.extension)
}

pub open spec fn has_audio_entry(entries: Seq<DirEntryProbe>) -> bool {
    exists|i: int| 0 <= i < entries.len() && (#[trigger] entries[i]).is_file && audio_ext(entries[i].extension)
}

pub open spec fn has_output2_entry(entries: Seq<DirEntryProbe>) -> bool {
    exists|i: int| 0 <= i < entries.len() && is_output2_entry(#[trigger] entries[i])
}

/// Errors about the audio folder.
pub open spec fn audio_dir_errors(dir: Seq<char>, probe: PathProbe, entries: Option<Seq<DirEntryProbe>>) -> Seq<(Seq<char>, Seq<char>)> {
    if dir.len() == 0 {
        seq![("audio_dir"@, "Audio directory path cannot be empty"@)]
    } else if probe.kind == PathKind::Missing {
        seq![("audio_dir"@, "Audio directory does not exist: "@ + dir)]
    } else if probe.kind != PathKind::Directory {
        seq![("audio_dir"@, "Audio directory path is not a directory: "@ + dir)]
    } else {
        match entries {
            None => seq![("audio_dir"@, "Cannot read audio directory: "@ + dir)],
            Some(es) => if has_audio_entry(es) {
                Seq::empty()
            } else {
                seq![("audio_dir"@, "Audio directory contains no files in supported formats: [\".ogg\", \".mp3\", \".m4a\", \".aac\", \".flac\", \".mp4\"]"@)]
            },
        }
    }
}

/// Errors about the dialogue text file.
pub open spec fn text_file_errors(path: Seq<char>, probe: PathProbe) -> Seq<(Seq<char>, Seq<char>)> {
    if path.len() == 0 {
        seq![("text_file_path"@, "Text file path cannot be empty"@)]
    } else if probe.kind == PathKind::Missing {
        seq![("text_file_path"@, "Text file does not exist: "@ + path)]
    } else if probe.kind != PathKind::File {
        seq![("text_file_path"@, "Text file path is not a file: "@ + path)]
    } else if !is_txt(probe.extension) {
        seq![("text_file_path"@, "Text file must have .txt extension: "@ + path)]
    } else {
        Seq::empty()
    }
}

/// Errors about the (optional) character-names file.
pub open spec fn names_file_errors(path: Seq<char>, probe: PathProbe) -> Seq<(Seq<char>, Seq<char>)> {
    if path.len() == 0 {
        Seq::empty()
    } else if probe.kind == PathKind::Missing {
        seq![("names_file_path"@, "Names file does not exist: "@ + path)]
    } else if probe.kind != PathKind::File {
        seq![("names_file_path"@, "Names file path is not a file: "@ + path)]
    } else if !is_txt(probe.extension) {
        seq![("names_file_path"@, "Names file must have .txt extension: "@ + path)]
    } else {
        Seq::empty()
    }
}

/// The error about missing second-output files.
pub open spec fn output2_errors(
    dir: Seq<char>, probe: PathProbe, entries: Option<Seq<DirEntryProbe>>, output2: bool, dynamic_speed: bool,
) -> Seq<(Seq<char>, Seq<char>)> {
    if output2 && !dynamic_speed && dir.len() > 0 && probe.kind == PathKind::Directory
        && (entries matches Some(es) && !has_output2_entry(es)) {
        seq![("audio_dir"@, "Audio directory must contain output2 files when the output2 system is enabled and dynamic speed is disabled"@)]
    } else {
        Seq::empty()
    }
}

pub open spec fn entries_view(entries: Option<Vec<DirEntryProbe>>) -> Option<Seq<DirEntryProbe>> {
    match entries {
        Some(v) => Some(v@),
        None => None,
    }
}

fn prefixed_message(prefix: &str, s: &str) -> (r: String)
    ensures
        r@ == prefix@ + s@,
{
    let mut v = chars_of(prefix);
    append_chars(&mut v, chars_of(s).as_slice());
    string_of(v.as_slice())
}

fn is_audio_ext(ext: &Option<String>) -> (b: bool)
    ensures
        b == audio_ext(*ext),
{
    match ext {
        Some(e) => {
            let l = crate::text::to_lowercase(e.as_str());
            let formats = crate::hotkeys::str_list(&["ogg", "mp3", "m4a", "aac", "flac", "mp4"]);
            assert(formats@.map_values(|x: Vec<char>| x@) =~= crate::audio::audio_formats());
            list_contains(&formats, l.as_slice())
        },
        None => false,
    }
}

fn is_txt_exec(ext: &Option<String>) -> (b: bool)
    ensures
        b == is_txt(*ext),
{
    match ext {
        Some(e) => chars_eq(chars_of(e.as_str()).as_slice(), chars_of("txt").as_slice()),
        None => false,
    }
}

fn contains_char_exec(s: &[char], c: char) -> (b: bool)
    ensures
        b == s@.contains(c),
{
    let mut i: usize = 0;
    while i < s.len()
        invariant
            i <= s@.len(),
            forall|k: int| 0 <= k < i ==> s@[k] != c,
        decreases s@.len() - i,
    {
        if s[i] == c {
            assert(s@[i as int] == c);
            return true;
        }
        i += 1;
    }
    false
}

fn any_audio_entry(entries: &Vec<DirEntryProbe>) -> (b: bool)
    ensures
        b == has_audio_entry(entries@),
{
    let mut i: usize = 0;
    while i < entries.len()
        invariant
            i <= entries@.len(),
            forall|k: int| 0 <= k < i ==> !((#[trigger] entries@[k]).is_file && audio_ext(entries@[k].extension)),
        decreases entries@.len() - i,
    {
        if entries[i].is_file && is_audio_ext(&entries[i].extension) {
            return true;
        }
        i += 1;
    }
    false
}

fn any_output2_entry(entries: &Vec<DirEntryProbe>) -> (b: bool)
    ensures
        b == has_output2_entry(entries@),
{
    let prefix = chars_of("output2 ");
    let mut i: usize = 0;
    while i < entries.len()
        invariant
            i <= entries@.len(),
            prefix@ == "output2 "@,
            forall|k: int| 0 <= k < i ==> !is_output2_entry(#[trigger] entries@[k]),
        decreases entries@.len() - i,
    {
        let e = &entries[i];
        let name = chars_of(e.file_name.as_str());
        if e.is_file && starts_with_chars(name.as_slice(), prefix.as_slice())
            && contains_char_exec(name.as_slice(), '(') && contains_char_exec(name.as_slice(), ')')
            && is_audio_ext(&e.extension) {
            assert(is_output2_entry(entries@[i as int]));
            return true;
        }
        i += 1;
    }
    false
}

impl Validator {
    /// Checks the configured paths against what the file system reports:
    /// the audio folder must exist, be a folder, be readable and hold a file
    /// in a supported audio format; the dialogue file must exist, be a file
    /// and end in `.txt`; the character-names file, when set, likewise; and
    /// with the second output on and dynamic speed off the audio folder must
    /// hold an `output2 (N)` audio file.  `audio_entries` is `None` when the
    /// audio folder could not be listed.
    pub fn validate_paths(
        audio_dir: &str,
        audio: &PathProbe,
        audio_entries: &Option<Vec<DirEntryProbe>>,
        text_file_path: &str,
        text: &PathProbe,
        names_file_path: &str,
        names: &PathProbe,
        enable_output2_system: bool,
        enable_dynamic_speed: bool,
    ) -> (r: ValidationResult)
        ensures
            error_views(r.errors@) == audio_dir_errors(audio_dir@, *audio, entries_view(*audio_entries))
                + text_file_errors(text_file_path@, *text)
                + names_file_errors(names_file_path@, *names)
                + output2_errors(audio_dir@, *audio, entries_view(*audio_entries), enable_output2_system, enable_dynamic_speed),
    {
        let mut result = ValidationResult::new();
        assert(error_views(result.errors@) =~= Seq::<(Seq<char>, Seq<char>)>::empty());
        let dir_len = chars_of(audio_dir).len();
        if dir_len == 0 {
            result.add_error("audio_dir".to_owned(), "Audio directory path cannot be empty".to_owned());
        } else if audio.kind == PathKind::Missing {
            result.add_error("audio_dir".to_owned(), prefixed_message("Audio directory does not exist: ", audio_dir));
        } else if audio.kind != PathKind::Directory {
            result.add_error("audio_dir".to_owned(), prefixed_message("Audio directory path is not a directory: ", audio_dir));
        } else {
            match audio_entries {
                None => {
                    result.add_error("audio_dir".to_owned(), prefixed_message("Cannot read audio directory: ", audio_dir));
                },
                Some(es) => {
                    if !any_audio_entry(es) {
                        result.add_error(
                            "audio_dir".to_owned(),
                            "Audio directory contains no files in supported formats: [\".ogg\", \".mp3\", \".m4a\", \".aac\", \".flac\", \".mp4\"]".to_owned(),
                        );
                    }
                },
            }
        }
        let ghost e1 = error_views(result.errors@);
        assert(e1 =~= audio_dir_errors(audio_dir@, *audio, entries_view(*audio_entries)));
        let text_len = chars_of(text_file_path).len();
        if text_len == 0 {
            result.add_error("text_file_path".to_owned(), "Text file path cannot be empty".to_owned());
        } else if text.kind == PathKind::Missing {
            result.add_error("text_file_path".to_owned(), prefixed_message("Text file does not exist: ", text_file_path));
        } else if text.kind != PathKind::File {
            result.add_error("text_file_path".to_owned(), prefixed_message("Text file path is not a file: ", text_file_path));
        } else if !is_txt_exec(&text.extension) {
            result.add_error("text_file_path".to_owned(), prefixed_message("Text file must have .txt extension: ", text_file_path));
        }
        let ghost e2 = error_views(result.errors@);
        assert(e2 =~= e1 + text_file_errors(text_file_path@, *text));
        let names_len = chars_of(names_file_path).len();
        if names_len > 0 {
            if names.kind == PathKind::Missing {
                result.add_error("names_file_path".to_owned(), prefixed_message("Names file does not exist: ", names_file_path));
            } else if names.kind != PathKind::File {
                result.add_error("names_file_path".to_owned(), prefixed_message("Names file path is not a file: ", names_file_path));
            } else if !is_txt_exec(&names.extension) {
                result.add_error("names_file_path".to_owned(), prefixed_message("Names file must have .txt extension: ", names_file_path));
            }
        }
        let ghost e3 = error_views(result.errors@);
        assert(e3 =~= e2 + names_file_errors(names_file_path@, *names));
        if enable_output2_system && !enable_dynamic_speed && dir_len > 0 && audio.kind == PathKind::Directory {
            if let Some(es) = audio_entries {
                if !any_output2_entry(es) {
                    result.add_error(
                        "audio_dir".to_owned(),
                        "Audio directory must contain output2 files when the output2 system is enabled and dynamic speed is disabled".to_owned(),
                    );
                }
            }
        }
        assert(error_views(result.errors@) =~= e3 + output2_errors(audio_dir@, *audio, entries_view(*audio_entries), enable_output2_system, enable_dynamic_speed));
        result
    }
}


// ---------------------------------------------------------------------------
// Integer ranges
// ---------------------------------------------------------------------------

/// Decimal text of an integer, with a leading minus when negative.
pub open spec fn signed_decimal(v: int) -> Seq<char> {
    if v < 0 {
        seq!['-'] + crate::audio::decimal((-v) as nat)
    } else {
        crate::audio::decimal(v as nat)
    }
}

fn signed_decimal_exec(v: i32) -> (r: Vec<char>)
    ensures
        r@ == signed_decimal(v as int),
{
    if v < 0 {
        let n: i64 = -(v as i64);
        let mut r: Vec<char> = Vec::new();
        r.push('-');
        append_chars(&mut r, crate::audio::decimal_chars(n as usize).as_slice());
        r
    } else {
        crate::audio::decimal_chars(v as usize)
    }
}

/// Text heights are accepted from this many pixels...
pub const MIN_HEIGHT_MIN: i32 = 1;
/// ...up to this many.
pub const MIN_HEIGHT_MAX: i32 = 9999;

/// The message for a text-height limit outside `[1, 9999]`.
pub open spec fn height_range_message(v: i32) -> Option<Seq<char>> {
    if v < MIN_HEIGHT_MIN || v > MIN_HEIGHT_MAX {
        Some("Musi być w zakresie [1, 9999], a jest "@ + signed_decimal(v as int))
    } else {
        None
    }
}

impl Validator {
    /// The error message for a text-height limit (minimum or maximum) outside
    /// `[1, 9999]`.
    pub fn height_range_error(v: i32) -> (r: Option<String>)
        ensures
            match height_range_message(v) {
                Some(m) => r matches Some(s) && s@ == m,
                None => r is None,
            },
    {
        if v < MIN_HEIGHT_MIN || v > MIN_HEIGHT_MAX {
            let mut m = chars_of("Musi być w zakresie [1, 9999], a jest ");
            append_chars(&mut m, signed_decimal_exec(v).as_slice());
            Some(string_of(m.as_slice()))
        } else {
            None
        }
    }

    /// The error message when the minimum text height exceeds the maximum.
    pub fn height_order_error(min_height: i32, max_height: i32) -> (r: Option<String>)
        ensures
            min_height > max_height ==> (r matches Some(s) && s@ == "Musi być mniejsze lub równe maks. wysokości ("@
                + signed_decimal(min_height as int) + " > "@ + signed_decimal(max_height as int) + ")"@),
            min_height <= max_height ==> r is None,
    {
        if min_height > max_height {
            let mut m = chars_of("Musi być mniejsze lub równe maks. wysokości (");
            append_chars(&mut m, signed_decimal_exec(min_height).as_slice());
            append_chars(&mut m, chars_of(" > ").as_slice());
            append_chars(&mut m, signed_decimal_exec(max_height).as_slice());
            append_chars(&mut m, chars_of(")").as_slice());
            Some(string_of(m.as_slice()))
        } else {
            None
        }
    }

    /// The error message for an audio queue size other than 1, 2 or 3.
    pub fn audio_queue_size_error(size: u8) -> (r: Option<String>)
        ensures
            1 <= size <= 3 ==> r is None,
            !(1 <= size <= 3) ==> (r matches Some(s) && s@ == "Musi być jedną z wartości [1, 2, 3], a jest "@
                + crate::audio::decimal(size as nat)),
    {
        if 1 <= size && size <= 3 {
            None
        } else {
            let mut m = chars_of("Musi być jedną z wartości [1, 2, 3], a jest ");
            append_chars(&mut m, crate::audio::decimal_chars(size as usize).as_slice());
            Some(string_of(m.as_slice()))
        }
    }
}

} // verus!
