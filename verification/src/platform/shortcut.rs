//! Keyboard shortcuts as text.

use vstd::prelude::*;

use crate::text;
use crate::text::{
    chars_of, concat, lower_all, push_decimal, same_ignoring_case, split_words, string_of, trim,
    upper_of,
};

verus! {

/// What can be wrong with hotkeys.
#[derive(Debug, Clone, PartialEq, Eq)]
pub enum HotkeyError {
    EmptyShortcut,
    InvalidShortcut(String),
    AlreadyRegistered(String),
    PortalUnavailable(String),
    SessionFailed(String),
    BindFailed(String),
    UnsupportedEnvironment(String),
    NotRegistered,
}

impl HotkeyError {
    pub open spec fn text(&self) -> Seq<char> {
        match self {
            HotkeyError::EmptyShortcut => "shortcut is empty"@,
            HotkeyError::InvalidShortcut(s) => "invalid shortcut: "@ + s@,
            HotkeyError::AlreadyRegistered(s) => "shortcut already registered: "@ + s@,
            HotkeyError::PortalUnavailable(s) => "global shortcuts unavailable: "@ + s@,
            HotkeyError::SessionFailed(s) => "session failed: "@ + s@,
            HotkeyError::BindFailed(s) => "bind failed: "@ + s@,
            HotkeyError::UnsupportedEnvironment(s) => "unsupported environment: "@ + s@,
            HotkeyError::NotRegistered => "no hotkeys registered"@,
        }
    }

    /// The error in words.
    pub fn message(&self) -> (r: String)
        ensures
            r@ == self.text(),
    {
        match self {
            HotkeyError::EmptyShortcut => "shortcut is empty".to_owned(),
            HotkeyError::InvalidShortcut(s) => concat("invalid shortcut: ", s.as_str()),
            HotkeyError::AlreadyRegistered(s) => concat(
                "shortcut already registered: ",
                s.as_str(),
            ),
            HotkeyError::PortalUnavailable(s) => concat(
                "global shortcuts unavailable: ",
                s.as_str(),
            ),
            HotkeyError::SessionFailed(s) => concat("session failed: ", s.as_str()),
            HotkeyError::BindFailed(s) => concat("bind failed: ", s.as_str()),
            HotkeyError::UnsupportedEnvironment(s) => concat(
                "unsupported environment: ",
                s.as_str(),
            ),
            HotkeyError::NotRegistered => "no hotkeys registered".to_owned(),
        }
    }
}

/// The modifier keys of a shortcut.
#[derive(Debug, Clone, Copy, PartialEq, Eq, Structural)]
pub struct Modifiers {
    pub ctrl: bool,
    pub shift: bool,
    pub alt: bool,
    pub meta: bool,
}

#[derive(Debug, Clone, Copy, PartialEq, Eq, Structural)]
pub enum Modifier {
    Ctrl,
    Shift,
    Alt,
    Meta,
}

impl Modifiers {
    pub open spec fn none() -> Modifiers {
        Modifiers { ctrl: false, shift: false, alt: false, meta: false }
    }

    pub open spec fn has(self, m: Modifier) -> bool {
        match m {
            Modifier::Ctrl => self.ctrl,
            Modifier::Shift => self.shift,
            Modifier::Alt => self.alt,
            Modifier::Meta => self.meta,
        }
    }

    pub open spec fn with(self, m: Modifier) -> Modifiers {
        match m {
            Modifier::Ctrl => Modifiers { ctrl: true, ..self },
            Modifier::Shift => Modifiers { shift: true, ..self },
            Modifier::Alt => Modifiers { alt: true, ..self },
            Modifier::Meta => Modifiers { meta: true, ..self },
        }
    }

    /// The names of the modifiers, in the order in which they are written.
    pub open spec fn names(self) -> Seq<Seq<char>> {
        (if self.ctrl {
            seq!["Ctrl"@]
        } else {
            Seq::empty()
        }) + (if self.shift {
            seq!["Shift"@]
        } else {
            Seq::empty()
        }) + (if self.alt {
            seq!["Alt"@]
        } else {
            Seq::empty()
        }) + (if self.meta {
            seq!["Meta"@]
        } else {
            Seq::empty()
        })
    }
}

/// The modifier that a word means, in whatever case it is written.
pub open spec fn modifier(s: Seq<char>) -> Option<Modifier> {
    let t = text::lowered(s);
    if t == "ctrl"@ || t == "control"@ {
        Some(Modifier::Ctrl)
    } else if t == "shift"@ {
        Some(Modifier::Shift)
    } else if t == "alt"@ {
        Some(Modifier::Alt)
    } else if t == "meta"@ || t == "super"@ || t == "win"@ {
        Some(Modifier::Meta)
    } else {
        None
    }
}

fn is_word(s: &[char], word: &str) -> (r: bool)
    ensures
        r == (s@ == word@),
{
    let w = chars_of(word);
    text::same_chars(s, &w)
}

fn normalize_modifier(s: &[char]) -> (r: Option<Modifier>)
    ensures
        r == modifier(s@),
{
    let t = lower_all(s);
    if is_word(&t, "ctrl") || is_word(&t, "control") {
        Some(Modifier::Ctrl)
    } else if is_word(&t, "shift") {
        Some(Modifier::Shift)
    } else if is_word(&t, "alt") {
        Some(Modifier::Alt)
    } else if is_word(&t, "meta") || is_word(&t, "super") || is_word(&t, "win") {
        Some(Modifier::Meta)
    } else {
        None
    }
}

/// The keys whose names have more than one character.
pub open spec fn key_names() -> Seq<Seq<char>> {
    Seq::new(35, |i: int| "F"@ + text::decimal((i + 1) as nat)) + seq![
        "Print"@,
        "Pause"@,
        "ScrollLock"@,
        "Insert"@,
        "Delete"@,
        "Home"@,
        "End"@,
        "PageUp"@,
        "PageDown"@,
        "Space"@,
        "Tab"@,
        "Backspace"@,
        "Enter"@,
        "Return"@,
        "Escape"@,
        "Plus"@,
        "Minus"@,
        "Equal"@,
    ]
}

/// The first one of some names that a text equals but for the case of its letters.
pub open spec fn named(names: Seq<Seq<char>>, s: Seq<char>) -> Option<Seq<char>>
    decreases names.len(),
{
    if names.len() == 0 {
        None
    } else {
        match named(names.drop_last(), s) {
            Some(k) => Some(k),
            None => if text::lowered(names.last()) == text::lowered(s) {
                Some(names.last())
            } else {
                None
            },
        }
    }
}

pub open spec fn is_letter_or_digit(c: char) -> bool {
    ('a' <= c <= 'z') || ('A' <= c <= 'Z') || ('0' <= c <= '9')
}

/// The key that a word means: a letter or digit, or one of the named keys.
pub open spec fn key(s: Seq<char>) -> Option<Seq<char>> {
    if s.len() == 1 {
        if is_letter_or_digit(s[0]) {
            Some(seq![text::upper(s[0])])
        } else {
            None
        }
    } else {
        named(key_names(), s)
    }
}

fn key_list() -> (r: Vec<Vec<char>>)
    ensures
        text::texts(r@) == key_names(),
{
    let mut r: Vec<Vec<char>> = Vec::new();
    let mut i: u64 = 0;
    while i < 35
        invariant
            i <= 35,
            r@.len() == i,
            forall|k: int|
                0 <= k < i ==> (#[trigger] r@[k])@ == "F"@ + text::decimal((k + 1) as nat),
        decreases 35 - i,
    {
        let mut name = "F".to_owned();
        push_decimal(&mut name, i + 1);
        r.push(chars_of(name.as_str()));
        i = i + 1;
    }
    r.push(chars_of("Print"));
    r.push(chars_of("Pause"));
    r.push(chars_of("ScrollLock"));
    r.push(chars_of("Insert"));
    r.push(chars_of("Delete"));
    r.push(chars_of("Home"));
    r.push(chars_of("End"));
    r.push(chars_of("PageUp"));
    r.push(chars_of("PageDown"));
    r.push(chars_of("Space"));
    r.push(chars_of("Tab"));
    r.push(chars_of("Backspace"));
    r.push(chars_of("Enter"));
    r.push(chars_of("Return"));
    r.push(chars_of("Escape"));
    r.push(chars_of("Plus"));
    r.push(chars_of("Minus"));
    r.push(chars_of("Equal"));
    assert(text::texts(r@) =~= key_names());
    r
}

fn normalize_key(s: &[char]) -> (r: Option<Vec<char>>)
    requires
        s@.len() > 0,
    ensures
        match r {
            Some(k) => key(s@) == Some(k@),
            None => key(s@) is None,
        },
{
    if s.len() == 1 {
        let c: char = s[0];
        if ('a' <= c && c <= 'z') || ('A' <= c && c <= 'Z') || ('0' <= c && c <= '9') {
            let mut k: Vec<char> = Vec::new();
            k.push(upper_of(c));
            assert(k@ =~= seq![text::upper(s@[0])]);
            return Some(k);
        }
        return None;
    }
    let mut names = key_list();
    let ghost all = text::texts(names@);
    let mut i: usize = 0;
    while i < names.len()
        invariant
            i <= names@.len(),
            all == text::texts(names@),
            all == key_names(),
            s@.len() > 1,
            named(all.take(i as int), s@) is None,
        decreases names.len() - i,
    {
        assert(all.take(i + 1).drop_last() =~= all.take(i as int));
        if same_ignoring_case(&names[i], s) {
            proof {
                lemma_named_prefix(all, s@, i + 1);
            }
            return Some(names.swap_remove(i));
        }
        i = i + 1;
    }
    assert(all.take(i as int) =~= all);
    None
}

proof fn lemma_named_prefix(names: Seq<Seq<char>>, s: Seq<char>, n: int)
    requires
        0 <= n <= names.len(),
        named(names.take(n), s) is Some,
    ensures
        named(names, s) == named(names.take(n), s),
    decreases names.len() - n,
{
    if n < names.len() {
        assert(names.take(n + 1).drop_last() =~= names.take(n));
        lemma_named_prefix(names, s, n + 1);
    } else {
        assert(names.take(n) =~= names);
    }
}

/// The words between the plus signs of a shortcut.
pub open spec fn shortcut_words(s: Seq<char>) -> Seq<Seq<char>> {
    text::words(text::pieces(text::trimmed(s), '+'))
}

/// What a shortcut can be refused for.
pub enum ShortcutFault {
    Empty,
    Invalid(Seq<char>),
}

/// The modifiers that some words mean, or what is wrong with the first bad one.
pub open spec fn read_modifiers(ws: Seq<Seq<char>>) -> Result<Modifiers, Seq<char>>
    decreases ws.len(),
{
    if ws.len() == 0 {
        Ok(Modifiers::none())
    } else {
        match read_modifiers(ws.drop_last()) {
            Err(e) => Err(e),
            Ok(ms) => match modifier(ws.last()) {
                None => Err("unknown modifier '"@ + ws.last() + "'"@),
                Some(m) => if ms.has(m) {
                    Err("duplicate modifier '"@ + ws.last() + "'"@)
                } else {
                    Ok(ms.with(m))
                },
            },
        }
    }
}

/// The written form of a shortcut.
pub open spec fn written(ms: Modifiers, k: Seq<char>) -> Seq<char> {
    text::joined(ms.names().push(k), "+"@)
}

/// The uniform form of a shortcut: the modifiers in a fixed order, then the key.
pub open spec fn normalized(s: Seq<char>) -> Result<Seq<char>, ShortcutFault> {
    let ws = shortcut_words(s);
    if ws.len() == 0 {
        Err(ShortcutFault::Empty)
    } else {
        match read_modifiers(ws.drop_last()) {
            Err(e) => Err(ShortcutFault::Invalid(e)),
            Ok(ms) => match key(ws.last()) {
                None => Err(ShortcutFault::Invalid("unknown key '"@ + ws.last() + "'"@)),
                Some(k) => Ok(written(ms, k)),
            },
        }
    }
}

/// A word in quotation marks behind some other words.
fn quoted(before: &str, word: &[char]) -> (r: String)
    ensures
        r@ == before@ + word@ + "'"@,
{
    let w = string_of(word);
    concat(concat(before, w.as_str()).as_str(), "'")
}

/// Brings a shortcut such as `shift+ctrl+f2` into the form `Ctrl+Shift+F2`.
pub fn normalize_shortcut(input: &str) -> (r: Result<String, HotkeyError>)
    ensures
        match r {
            Ok(t) => normalized(input@) == Ok::<Seq<char>, ShortcutFault>(t@),
            Err(HotkeyError::EmptyShortcut) => normalized(input@) == Err::<Seq<char>, _>(
                ShortcutFault::Empty,
            ),
            Err(HotkeyError::InvalidShortcut(t)) => normalized(input@) == Err::<Seq<char>, _>(
                ShortcutFault::Invalid(t@),
            ),
            _ => false,
        },
{
    let trimmed = trim(&chars_of(input));
    let ws = split_words(&trimmed, '+');
    let ghost all = text::texts(ws@);
    let n: usize = ws.len();
    if n == 0 {
        return Err(HotkeyError::EmptyShortcut);
    }
    let mut ms = Modifiers { ctrl: false, shift: false, alt: false, meta: false };
    let ghost mods = all.drop_last();
    let mut i: usize = 0;
    assert(mods.take(0) =~= Seq::empty());
    while i < n - 1
        invariant
            i <= n - 1,
            n == ws@.len(),
            all == text::texts(ws@),
            mods == all.drop_last(),
            all == shortcut_words(input@),
            read_modifiers(mods.take(i as int)) == Ok::<Modifiers, Seq<char>>(ms),
        decreases n - 1 - i,
    {
        assert(mods.take(i + 1).drop_last() =~= mods.take(i as int));
        assert(mods.take(i + 1).last() == ws@[i as int]@);
        let m: Modifier = match normalize_modifier(&ws[i]) {
            Some(m) => m,
            None => {
                proof {
                    lemma_modifier_error(mods, i + 1);
                }
                return Err(HotkeyError::InvalidShortcut(quoted("unknown modifier '", &ws[i])));
            },
        };
        let taken: bool = match m {
            Modifier::Ctrl => ms.ctrl,
            Modifier::Shift => ms.shift,
            Modifier::Alt => ms.alt,
            Modifier::Meta => ms.meta,
        };
        if taken {
            proof {
                lemma_modifier_error(mods, i + 1);
            }
            return Err(HotkeyError::InvalidShortcut(quoted("duplicate modifier '", &ws[i])));
        }
        match m {
            Modifier::Ctrl => {
                ms.ctrl = true;
            },
            Modifier::Shift => {
                ms.shift = true;
            },
            Modifier::Alt => {
                ms.alt = true;
            },
            Modifier::Meta => {
                ms.meta = true;
            },
        }
        i = i + 1;
    }
    proof {
        assert(mods.take(i as int) =~= mods);
        assert(all.last() == ws@[n - 1]@);
        text::lemma_words_nonempty(text::pieces(text::trimmed(input@), '+'));
        assert(all[n - 1].len() > 0);
    }
    match normalize_key(&ws[n - 1]) {
        Some(k) => Ok(write_shortcut(ms, k)),
        None => Err(HotkeyError::InvalidShortcut(quoted("unknown key '", &ws[n - 1]))),
    }
}

fn write_shortcut(ms: Modifiers, k: Vec<char>) -> (r: String)
    ensures
        r@ == written(ms, k@),
{
    let mut parts: Vec<Vec<char>> = Vec::new();
    if ms.ctrl {
        parts.push(chars_of("Ctrl"));
    }
    if ms.shift {
        parts.push(chars_of("Shift"));
    }
    if ms.alt {
        parts.push(chars_of("Alt"));
    }
    if ms.meta {
        parts.push(chars_of("Meta"));
    }
    assert(text::texts(parts@) =~= ms.names());
    let ghost before = parts@;
    let ghost kk = k@;
    parts.push(k);
    assert(text::texts(parts@) =~= text::texts(before).push(kk));
    text::join(&parts, "+")
}

/// The first bad word decides.
proof fn lemma_modifier_error(ws: Seq<Seq<char>>, n: int)
    requires
        0 <= n <= ws.len(),
        read_modifiers(ws.take(n)) is Err,
    ensures
        read_modifiers(ws) == read_modifiers(ws.take(n)),
    decreases ws.len() - n,
{
    if n < ws.len() {
        assert(ws.take(n + 1).drop_last() =~= ws.take(n));
        lemma_modifier_error(ws, n + 1);
    } else {
        assert(ws.take(n) =~= ws);
    }
}

/// Parses a shortcut and gives its uniform form.
pub fn parse_shortcut(input: &str) -> (r: Result<String, HotkeyError>)
    ensures
        match r {
            Ok(t) => normalized(input@) == Ok::<Seq<char>, ShortcutFault>(t@),
            Err(HotkeyError::EmptyShortcut) => normalized(input@) == Err::<Seq<char>, _>(
                ShortcutFault::Empty,
            ),
            Err(HotkeyError::InvalidShortcut(t)) => normalized(input@) == Err::<Seq<char>, _>(
                ShortcutFault::Invalid(t@),
            ),
            _ => false,
        },
{
    normalize_shortcut(input)
}

/// A word as it stands in a shortcut: not empty, without plus signs, and without white space at
/// its ends.
spec fn clean(w: Seq<char>) -> bool {
    &&& w.len() > 0
    &&& !text::is_white(w.first())
    &&& !text::is_white(w.last())
    &&& forall|i: int| 0 <= i < w.len() ==> w[i] != '+'
}

spec fn all_clean(ws: Seq<Seq<char>>) -> bool {
    forall|i: int| 0 <= i < ws.len() ==> clean(#[trigger] ws[i])
}

proof fn lemma_words_clean(ps: Seq<Seq<char>>)
    requires
        forall|i: int, j: int|
            #![trigger ps[i][j]]
            0 <= i < ps.len() && 0 <= j < ps[i].len() ==> ps[i][j] != '+',
    ensures
        all_clean(text::words(ps)),
    decreases ps.len(),
{
    if ps.len() > 0 {
        let front = ps.drop_last();
        assert forall|i: int, j: int|
            #![trigger front[i][j]]
            0 <= i < front.len() && 0 <= j < front[i].len() implies front[i][j] != '+' by {
            assert(front[i][j] == ps[i][j]);
        }
        lemma_words_clean(front);
        text::lemma_trimmed(ps.last());
        let before = text::words(front);
        let after = text::words(ps);
        let word = text::trimmed(ps.last());
        assert forall|j: int| 0 <= j < word.len() implies word[j] != '+' by {
            assert(ps.last().contains(word[j]));
            let k = choose|k: int| 0 <= k < ps.last().len() && ps.last()[k] == word[j];
            assert(ps[ps.len() - 1][k] == word[j]);
        }
        assert forall|i: int| 0 <= i < after.len() implies clean(#[trigger] after[i]) by {
            if i < before.len() {
                assert(after[i] == before[i]);
            }
        }
    }
}

proof fn lemma_words_fixed(ws: Seq<Seq<char>>)
    requires
        all_clean(ws),
    ensures
        text::words(ws) == ws,
    decreases ws.len(),
{
    if ws.len() > 0 {
        let front = ws.drop_last();
        assert forall|i: int| 0 <= i < front.len() implies clean(#[trigger] front[i]) by {
            assert(front[i] == ws[i]);
        }
        lemma_words_fixed(front);
        assert(clean(ws[ws.len() - 1]));
        text::lemma_untrimmed(ws.last());
        assert(front.push(ws.last()) =~= ws);
    }
}

/// The words of a shortcut that is written from clean words are those words.
proof fn lemma_words_of_joined(ws: Seq<Seq<char>>)
    requires
        ws.len() > 0,
        all_clean(ws),
    ensures
        shortcut_words(text::joined(ws, "+"@)) == ws,
{
    reveal_strlit("+");
    assert("+"@ =~= seq!['+']);
    let t = text::joined(ws, "+"@);
    assert forall|i: int, j: int|
        #![trigger ws[i][j]]
        0 <= i < ws.len() && 0 <= j < ws[i].len() implies ws[i][j] != '+' by {
        assert(clean(ws[i]));
    }
    assert forall|i: int| 0 <= i < ws.len() implies (#[trigger] ws[i]).len() > 0 by {
        assert(clean(ws[i]));
    }
    text::lemma_pieces_joined(ws, '+');
    text::lemma_joined_ends(ws, '+');
    assert(clean(ws[0]) && clean(ws[ws.len() - 1]));
    text::lemma_untrimmed(t);
    lemma_words_fixed(ws);
}

proof fn lemma_lowered_index(a: Seq<char>, b: Seq<char>, i: int)
    requires
        text::lowered(a) == text::lowered(b),
        0 <= i < a.len(),
    ensures
        a.len() == b.len(),
        text::lower(a[i]) == text::lower(b[i]),
{
    assert(text::lowered(a).len() == a.len());
    assert(text::lowered(b).len() == b.len());
    assert(text::lowered(a)[i] == text::lower(a[i]));
    assert(text::lowered(b)[i] == text::lower(b[i]));
}

/// What differs from a clean word in case only is clean.
proof fn lemma_clean_case(a: Seq<char>, b: Seq<char>)
    requires
        text::lowered(a) == text::lowered(b),
        clean(b),
    ensures
        clean(a),
        a.len() == b.len(),
{
    assert(text::lowered(a).len() == a.len());
    assert(text::lowered(b).len() == b.len());
    assert forall|i: int| 0 <= i < a.len() implies a[i] != '+' && (text::is_white(a[i])
        ==> text::is_white(b[i])) by {
        lemma_lowered_index(a, b, i);
    }
}

proof fn lemma_named_case(names: Seq<Seq<char>>, s: Seq<char>, t: Seq<char>)
    requires
        text::lowered(s) == text::lowered(t),
    ensures
        named(names, s) == named(names, t),
    decreases names.len(),
{
    if names.len() > 0 {
        lemma_named_case(names.drop_last(), s, t);
    }
}

proof fn lemma_named_matches(names: Seq<Seq<char>>, s: Seq<char>)
    ensures
        named(names, s) matches Some(k) ==> text::lowered(k) == text::lowered(s),
    decreases names.len(),
{
    if names.len() > 0 {
        lemma_named_matches(names.drop_last(), s);
    }
}

/// The name of a key means that key.
proof fn lemma_key_fixed(w: Seq<char>, k: Seq<char>)
    requires
        clean(w),
        key(w) == Some(k),
    ensures
        key(k) == Some(k),
        clean(k),
{
    if w.len() == 1 {
        assert(k.len() == 1 && k[0] == text::upper(w[0]));
        assert(seq![text::upper(k[0])] =~= k);
    } else {
        lemma_named_matches(key_names(), w);
        lemma_clean_case(k, w);
        lemma_named_case(key_names(), k, w);
    }
}

/// The written names of the modifiers mean those modifiers.
proof fn lemma_modifier_names()
    ensures
        modifier("Ctrl"@) == Some(Modifier::Ctrl),
        modifier("Shift"@) == Some(Modifier::Shift),
        modifier("Alt"@) == Some(Modifier::Alt),
        modifier("Meta"@) == Some(Modifier::Meta),
        clean("Ctrl"@),
        clean("Shift"@),
        clean("Alt"@),
        clean("Meta"@),
{
    reveal_strlit("Ctrl");
    reveal_strlit("Shift");
    reveal_strlit("Alt");
    reveal_strlit("Meta");
    reveal_strlit("ctrl");
    reveal_strlit("control");
    reveal_strlit("shift");
    reveal_strlit("alt");
    reveal_strlit("meta");
    reveal_strlit("super");
    reveal_strlit("win");
    assert(text::lowered("Ctrl"@) =~= "ctrl"@);
    assert(text::lowered("Shift"@) =~= "shift"@);
    assert(text::lowered("Alt"@) =~= "alt"@);
    assert(text::lowered("Meta"@) =~= "meta"@);
    assert("ctrl"@.len() == 4 && "control"@.len() == 7 && "shift"@.len() == 5 && "alt"@.len() == 3
        && "meta"@.len() == 4 && "super"@.len() == 5 && "win"@.len() == 3);
    assert("ctrl"@[0] == 'c' && "meta"@[0] == 'm' && "shift"@[1] == 'h' && "alt"@[0] == 'a');
}

proof fn lemma_read_one(ws: Seq<Seq<char>>, ms: Modifiers, name: Seq<char>, m: Modifier)
    requires
        read_modifiers(ws) == Ok::<Modifiers, Seq<char>>(ms),
        modifier(name) == Some(m),
        !ms.has(m),
    ensures
        read_modifiers(ws + seq![name]) == Ok::<Modifiers, Seq<char>>(ms.with(m)),
{
    let all = ws + seq![name];
    assert(all.drop_last() =~= ws);
    assert(all.last() == name);
}

proof fn lemma_read_names(ms: Modifiers)
    ensures
        read_modifiers(ms.names()) == Ok::<Modifiers, Seq<char>>(ms),
        all_clean(ms.names()),
{
    lemma_modifier_names();
    let none = Seq::<Seq<char>>::empty();
    let a = if ms.ctrl {
        seq!["Ctrl"@]
    } else {
        none
    };
    let b = if ms.shift {
        seq!["Shift"@]
    } else {
        none
    };
    let c = if ms.alt {
        seq!["Alt"@]
    } else {
        none
    };
    let d = if ms.meta {
        seq!["Meta"@]
    } else {
        none
    };
    let m0 = Modifiers::none();
    let m1 = Modifiers { ctrl: ms.ctrl, ..m0 };
    let m2 = Modifiers { shift: ms.shift, ..m1 };
    let m3 = Modifiers { alt: ms.alt, ..m2 };
    assert(read_modifiers(none) == Ok::<Modifiers, Seq<char>>(m0));
    if ms.ctrl {
        lemma_read_one(none, m0, "Ctrl"@, Modifier::Ctrl);
        assert(none + seq!["Ctrl"@] =~= a);
    }
    if ms.shift {
        lemma_read_one(a, m1, "Shift"@, Modifier::Shift);
    } else {
        assert(a + b =~= a);
    }
    if ms.alt {
        lemma_read_one(a + b, m2, "Alt"@, Modifier::Alt);
    } else {
        assert(a + b + c =~= a + b);
    }
    if ms.meta {
        lemma_read_one(a + b + c, m3, "Meta"@, Modifier::Meta);
    } else {
        assert(a + b + c + d =~= a + b + c);
    }
    assert(ms.names() =~= a + b + c + d);
}

/// Bringing a shortcut into its uniform form a second time changes nothing.
pub proof fn law_normalize_idempotent(s: Seq<char>)
    ensures
        normalized(s) matches Ok(t) ==> normalized(t) == Ok::<Seq<char>, ShortcutFault>(t),
{
    if normalized(s) is Ok {
        let ws = shortcut_words(s);
        let ms = read_modifiers(ws.drop_last())->Ok_0;
        let k = key(ws.last())->0;
        let t = written(ms, k);
        text::lemma_pieces_clean(text::trimmed(s), '+');
        lemma_words_clean(text::pieces(text::trimmed(s), '+'));
        assert(clean(ws[ws.len() - 1]));
        lemma_key_fixed(ws.last(), k);
        lemma_read_names(ms);
        let parts = ms.names().push(k);
        assert forall|i: int| 0 <= i < parts.len() implies clean(#[trigger] parts[i]) by {
            if i < ms.names().len() {
                assert(parts[i] == ms.names()[i]);
            }
        }
        lemma_words_of_joined(parts);
        assert(parts.drop_last() =~= ms.names());
        assert(parts.last() == k);
    }
}

/// The case of letters does not matter in the name of a key.
pub proof fn law_key_ignores_case(a: Seq<char>, b: Seq<char>)
    requires
        text::lowered(a) == text::lowered(b),
    ensures
        key(a) == key(b),
{
    assert(text::lowered(a).len() == a.len());
    assert(text::lowered(b).len() == b.len());
    if a.len() == 1 {
        lemma_lowered_index(a, b, 0);
    } else {
        lemma_named_case(key_names(), a, b);
    }
}

proof fn lemma_modifiers_case(v: Seq<Seq<char>>, w: Seq<Seq<char>>)
    requires
        text::all_lowered(v) == text::all_lowered(w),
    ensures
        read_modifiers(v) is Ok ==> read_modifiers(w) == read_modifiers(v),
    decreases v.len(),
{
    assert(text::all_lowered(v).len() == v.len());
    assert(text::all_lowered(w).len() == w.len());
    if v.len() > 0 {
        assert(text::all_lowered(v).last() == text::lowered(v.last()));
        assert(text::all_lowered(w).last() == text::lowered(w.last()));
        assert(text::all_lowered(v.drop_last()) =~= text::all_lowered(v).drop_last());
        assert(text::all_lowered(w.drop_last()) =~= text::all_lowered(w).drop_last());
        lemma_modifiers_case(v.drop_last(), w.drop_last());
    }
}

/// The case of letters does not matter in a shortcut.
pub proof fn law_case_ignored(a: Seq<char>, b: Seq<char>)
    requires
        text::lowered(a) == text::lowered(b),
    ensures
        normalized(a) is Ok ==> normalized(b) == normalized(a),
        normalized(a) is Ok <==> normalized(b) is Ok,
        normalized(a) == Err::<Seq<char>, _>(ShortcutFault::Empty) <==> normalized(b) == Err::<
            Seq<char>,
            _,
        >(ShortcutFault::Empty),
{
    let (v, w) = (shortcut_words(a), shortcut_words(b));
    lemma_words_of_lowered(a);
    lemma_words_of_lowered(b);
    assert(text::all_lowered(v).len() == v.len());
    assert(text::all_lowered(w).len() == w.len());
    if v.len() > 0 {
        assert(text::all_lowered(v).last() == text::lowered(v.last()));
        assert(text::all_lowered(w).last() == text::lowered(w.last()));
        law_key_ignores_case(v.last(), w.last());
        assert(text::all_lowered(v.drop_last()) =~= text::all_lowered(v).drop_last());
        assert(text::all_lowered(w.drop_last()) =~= text::all_lowered(w).drop_last());
        lemma_modifiers_case(v.drop_last(), w.drop_last());
        lemma_modifiers_case(w.drop_last(), v.drop_last());
    }
}

/// Words are read as modifiers where each of them is one and no two are the same; they are then
/// those that the words mean.
proof fn lemma_read_modifiers(ws: Seq<Seq<char>>)
    ensures
        read_modifiers(ws) is Ok <==> {
            &&& forall|i: int| 0 <= i < ws.len() ==> modifier(#[trigger] ws[i]) is Some
            &&& forall|i: int, j: int|
                #![trigger ws[i], ws[j]]
                0 <= i < j < ws.len() ==> modifier(ws[i]) != modifier(ws[j])
        },
        read_modifiers(ws) matches Ok(ms) ==> forall|m: Modifier| #[trigger]
            ms.has(m) <==> exists|i: int| 0 <= i < ws.len() && modifier(#[trigger] ws[i]) == Some(m),
    decreases ws.len(),
{
    if ws.len() > 0 {
        let front = ws.drop_last();
        lemma_read_modifiers(front);
        assert(forall|i: int| 0 <= i < front.len() ==> ws[i] == front[i]);
        if read_modifiers(front) is Ok {
            let ms = read_modifiers(front)->Ok_0;
            if let Some(m) = modifier(ws.last()) {
                if ms.has(m) {
                    let i = choose|i: int|
                        0 <= i < front.len() && modifier(#[trigger] front[i]) == Some(m);
                    assert(modifier(ws[i]) == modifier(ws[ws.len() - 1]));
                } else {
                    assert forall|n: Modifier| #[trigger] ms.with(m).has(n) <==> exists|i: int|
                        0 <= i < ws.len() && modifier(#[trigger] ws[i]) == Some(n) by {
                        if n == m {
                            assert(modifier(ws[ws.len() - 1]) == Some(n));
                        } else if ms.has(n) {
                            let i = choose|i: int|
                                0 <= i < front.len() && modifier(#[trigger] front[i]) == Some(n);
                            assert(modifier(ws[i]) == Some(n));
                        }
                    }
                }
            } else {
                assert(modifier(ws[ws.len() - 1]) is None);
            }
        } else {
            if forall|i: int| 0 <= i < front.len() ==> modifier(#[trigger] front[i]) is Some {
                let (i, j) = choose|i: int, j: int|
                    #![trigger front[i], front[j]]
                    0 <= i < j < front.len() && modifier(front[i]) == modifier(front[j]);
                assert(modifier(ws[i]) == modifier(ws[j]));
            } else {
                let i = choose|i: int|
                    0 <= i < front.len() && modifier(#[trigger] front[i]) is None;
                assert(modifier(ws[i]) is None);
            }
        }
    }
}

/// Words in another order are read as the same modifiers.
proof fn lemma_modifiers_reordered(v: Seq<Seq<char>>, w: Seq<Seq<char>>)
    requires
        v.to_multiset() == w.to_multiset(),
        read_modifiers(v) is Ok,
    ensures
        read_modifiers(w) == read_modifiers(v),
{
    broadcast use vstd::seq_lib::group_to_multiset_ensures;

    lemma_read_modifiers(v);
    lemma_read_modifiers(w);
    assert forall|x: Seq<char>| v.contains(x) <==> #[trigger] w.contains(x) by {
        assert(v.contains(x) <==> v.to_multiset().count(x) > 0);
        assert(w.contains(x) <==> w.to_multiset().count(x) > 0);
    }
    assert(v.no_duplicates()) by {
        assert forall|i: int, j: int| 0 <= i < j < v.len() implies v[i] != v[j] by {
            assert(modifier(v[i]) != modifier(v[j]));
        }
    }
    v.lemma_multiset_has_no_duplicates();
    w.lemma_multiset_has_no_duplicates_conv();
    assert forall|i: int| 0 <= i < w.len() implies modifier(#[trigger] w[i]) is Some by {
        assert(w.contains(w[i]));
        let k = choose|k: int| 0 <= k < v.len() && v[k] == w[i];
    }
    assert forall|i: int, j: int|
        #![trigger w[i], w[j]]
        0 <= i < j < w.len() implies modifier(w[i]) != modifier(w[j]) by {
        assert(w.contains(w[i]) && w.contains(w[j]));
        let k = choose|k: int| 0 <= k < v.len() && v[k] == w[i];
        let l = choose|l: int| 0 <= l < v.len() && v[l] == w[j];
        assert(k != l);
        if k < l {
            assert(modifier(v[k]) != modifier(v[l]));
        } else {
            assert(modifier(v[l]) != modifier(v[k]));
        }
    }
    let a = read_modifiers(v)->Ok_0;
    let b = read_modifiers(w)->Ok_0;
    assert forall|m: Modifier| #[trigger] a.has(m) == b.has(m) by {
        if a.has(m) {
            let i = choose|i: int| 0 <= i < v.len() && modifier(#[trigger] v[i]) == Some(m);
            assert(v.contains(v[i]));
            assert(w.contains(v[i]));
            let k = choose|k: int| 0 <= k < w.len() && w[k] == v[i];
            assert(modifier(w[k]) == Some(m));
        }
        if b.has(m) {
            let i = choose|i: int| 0 <= i < w.len() && modifier(#[trigger] w[i]) == Some(m);
            assert(w.contains(w[i]));
            let k = choose|k: int| 0 <= k < v.len() && v[k] == w[i];
            assert(modifier(v[k]) == Some(m));
        }
    }
    assert(a.has(Modifier::Ctrl) == b.has(Modifier::Ctrl));
    assert(a.has(Modifier::Shift) == b.has(Modifier::Shift));
    assert(a.has(Modifier::Alt) == b.has(Modifier::Alt));
    assert(a.has(Modifier::Meta) == b.has(Modifier::Meta));
    assert(a == b);
}

/// The order of the modifiers before the key does not matter in a shortcut.
pub proof fn law_modifier_order_ignored(a: Seq<char>, b: Seq<char>)
    requires
        shortcut_words(a).len() > 0,
        shortcut_words(b).len() > 0,
        shortcut_words(a).last() == shortcut_words(b).last(),
        shortcut_words(a).drop_last().to_multiset() == shortcut_words(b).drop_last().to_multiset(),
    ensures
        normalized(a) is Ok ==> normalized(b) == normalized(a),
        normalized(a) is Ok <==> normalized(b) is Ok,
{
    let (v, w) = (shortcut_words(a).drop_last(), shortcut_words(b).drop_last());
    if read_modifiers(v) is Ok {
        lemma_modifiers_reordered(v, w);
    }
    if read_modifiers(w) is Ok {
        lemma_modifiers_reordered(w, v);
    }
}

proof fn lemma_words_of_lowered(s: Seq<char>)
    ensures
        shortcut_words(text::lowered(s)) == text::all_lowered(shortcut_words(s)),
{
    text::lemma_trimmed_case(s);
    text::lemma_pieces_case(text::trimmed(s), '+');
    text::lemma_words_case(text::pieces(text::trimmed(s), '+'));
}

/// Before the key of a shortcut stands one of three words, in whatever case.
pub open spec fn names_modifier(
    ws: Seq<Seq<char>>,
    a: Seq<char>,
    b: Seq<char>,
    c: Seq<char>,
) -> bool {
    exists|i: int|
        0 <= i < ws.len() - 1 && (text::lowered(#[trigger] ws[i]) == a || text::lowered(ws[i]) == b
            || text::lowered(ws[i]) == c)
}

proof fn lemma_modifier_words(w: Seq<char>)
    ensures
        ({
            let t = text::lowered(w);
            &&& modifier(w) == Some(Modifier::Ctrl) <==> t == "ctrl"@ || t == "control"@
            &&& modifier(w) == Some(Modifier::Shift) <==> t == "shift"@
            &&& modifier(w) == Some(Modifier::Alt) <==> t == "alt"@
            &&& modifier(w) == Some(Modifier::Meta) <==> t == "meta"@ || t == "super"@ || t
                == "win"@
        }),
{
    reveal_strlit("ctrl");
    reveal_strlit("control");
    reveal_strlit("shift");
    reveal_strlit("alt");
    reveal_strlit("meta");
    reveal_strlit("super");
    reveal_strlit("win");
    assert("ctrl"@.len() == 4 && "control"@.len() == 7 && "shift"@.len() == 5 && "alt"@.len() == 3
        && "meta"@.len() == 4 && "super"@.len() == 5 && "win"@.len() == 3);
    assert("ctrl"@[0] == 'c' && "meta"@[0] == 'm' && "shift"@[1] == 'h' && "super"@[1] == 'u'
        && "alt"@[0] == 'a' && "win"@[0] == 'w');
}

proof fn lemma_read_has(ws: Seq<Seq<char>>, ms: Modifiers, m: Modifier)
    requires
        read_modifiers(ws) == Ok::<Modifiers, Seq<char>>(ms),
    ensures
        ms.has(m) <==> exists|i: int| 0 <= i < ws.len() && modifier(#[trigger] ws[i]) == Some(m),
{
    lemma_read_modifiers(ws);
    let a = read_modifiers(ws)->Ok_0;
    assert(a.has(m) == ms.has(m));
}

proof fn lemma_names_modifier(ws: Seq<Seq<char>>, ms: Modifiers)
    requires
        ws.len() > 0,
        read_modifiers(ws.drop_last()) == Ok::<Modifiers, Seq<char>>(ms),
    ensures
        ms.ctrl <==> names_modifier(ws, "ctrl"@, "control"@, "control"@),
        ms.shift <==> names_modifier(ws, "shift"@, "shift"@, "shift"@),
        ms.alt <==> names_modifier(ws, "alt"@, "alt"@, "alt"@),
        ms.meta <==> names_modifier(ws, "meta"@, "super"@, "win"@),
{
    let front = ws.drop_last();
    lemma_read_has(front, ms, Modifier::Ctrl);
    lemma_read_has(front, ms, Modifier::Shift);
    lemma_read_has(front, ms, Modifier::Alt);
    lemma_read_has(front, ms, Modifier::Meta);
    assert forall|i: int| 0 <= i < front.len() implies ws[i] == #[trigger] front[i] by {}
    assert forall|i: int| 0 <= i < front.len() implies ({
        let t = text::lowered(ws[i]);
        let m = modifier(#[trigger] ws[i]);
        &&& m == Some(Modifier::Ctrl) <==> t == "ctrl"@ || t == "control"@
        &&& m == Some(Modifier::Shift) <==> t == "shift"@
        &&& m == Some(Modifier::Alt) <==> t == "alt"@
        &&& m == Some(Modifier::Meta) <==> t == "meta"@ || t == "super"@ || t == "win"@
    }) by {
        lemma_modifier_words(ws[i]);
    }
    assert(ms.ctrl == ms.has(Modifier::Ctrl));
    assert(ms.shift == ms.has(Modifier::Shift));
    assert(ms.alt == ms.has(Modifier::Alt));
    assert(ms.meta == ms.has(Modifier::Meta));
    if ms.ctrl {
        let i = choose|i: int|
            0 <= i < front.len() && modifier(#[trigger] front[i]) == Some(Modifier::Ctrl);
        assert(modifier(ws[i]) == Some(Modifier::Ctrl));
    }
    if ms.shift {
        let i = choose|i: int|
            0 <= i < front.len() && modifier(#[trigger] front[i]) == Some(Modifier::Shift);
        assert(modifier(ws[i]) == Some(Modifier::Shift));
    }
    if ms.alt {
        let i = choose|i: int|
            0 <= i < front.len() && modifier(#[trigger] front[i]) == Some(Modifier::Alt);
        assert(modifier(ws[i]) == Some(Modifier::Alt));
    }
    if ms.meta {
        let i = choose|i: int|
            0 <= i < front.len() && modifier(#[trigger] front[i]) == Some(Modifier::Meta);
        assert(modifier(ws[i]) == Some(Modifier::Meta));
    }
    if names_modifier(ws, "ctrl"@, "control"@, "control"@) {
        let i = choose|i: int|
            0 <= i < ws.len() - 1 && (text::lowered(#[trigger] ws[i]) == "ctrl"@ || text::lowered(
                ws[i],
            ) == "control"@ || text::lowered(ws[i]) == "control"@);
        assert(modifier(front[i]) == Some(Modifier::Ctrl));
    }
    if names_modifier(ws, "shift"@, "shift"@, "shift"@) {
        let i = choose|i: int|
            0 <= i < ws.len() - 1 && (text::lowered(#[trigger] ws[i]) == "shift"@ || text::lowered(
                ws[i],
            ) == "shift"@ || text::lowered(ws[i]) == "shift"@);
        assert(modifier(front[i]) == Some(Modifier::Shift));
    }
    if names_modifier(ws, "alt"@, "alt"@, "alt"@) {
        let i = choose|i: int|
            0 <= i < ws.len() - 1 && (text::lowered(#[trigger] ws[i]) == "alt"@ || text::lowered(
                ws[i],
            ) == "alt"@ || text::lowered(ws[i]) == "alt"@);
        assert(modifier(front[i]) == Some(Modifier::Alt));
    }
    if names_modifier(ws, "meta"@, "super"@, "win"@) {
        let i = choose|i: int|
            0 <= i < ws.len() - 1 && (text::lowered(#[trigger] ws[i]) == "meta"@ || text::lowered(
                ws[i],
            ) == "super"@ || text::lowered(ws[i]) == "win"@);
        assert(modifier(front[i]) == Some(Modifier::Meta));
    }
}

/// The uniform form of a shortcut names the key of the shortcut and exactly its modifiers.
pub proof fn law_normalize_keeps(s: Seq<char>)
    ensures
        normalized(s) matches Ok(t) ==> {
            let (v, w) = (shortcut_words(s), shortcut_words(t));
            &&& v.len() > 0
            &&& w.len() == v.len()
            &&& text::lowered(w.last()) == text::lowered(v.last())
            &&& names_modifier(w, "ctrl"@, "control"@, "control"@) <==> names_modifier(
                v,
                "ctrl"@,
                "control"@,
                "control"@,
            )
            &&& names_modifier(w, "shift"@, "shift"@, "shift"@) <==> names_modifier(
                v,
                "shift"@,
                "shift"@,
                "shift"@,
            )
            &&& names_modifier(w, "alt"@, "alt"@, "alt"@) <==> names_modifier(
                v,
                "alt"@,
                "alt"@,
                "alt"@,
            )
            &&& names_modifier(w, "meta"@, "super"@, "win"@) <==> names_modifier(
                v,
                "meta"@,
                "super"@,
                "win"@,
            )
        },
{
    if normalized(s) is Ok {
        let ws = shortcut_words(s);
        let ms = read_modifiers(ws.drop_last())->Ok_0;
        let k = key(ws.last())->0;
        let t = written(ms, k);
        text::lemma_pieces_clean(text::trimmed(s), '+');
        lemma_words_clean(text::pieces(text::trimmed(s), '+'));
        assert(clean(ws[ws.len() - 1]));
        lemma_key_fixed(ws.last(), k);
        lemma_read_names(ms);
        let parts = ms.names().push(k);
        assert forall|i: int| 0 <= i < parts.len() implies clean(#[trigger] parts[i]) by {
            if i < ms.names().len() {
                assert(parts[i] == ms.names()[i]);
            }
        }
        lemma_words_of_joined(parts);
        assert(parts.drop_last() =~= ms.names());
        assert(text::lowered(k) == text::lowered(ws.last())) by {
            if ws.last().len() == 1 {
                assert(text::lowered(k) =~= text::lowered(ws.last()));
            } else {
                lemma_named_matches(key_names(), ws.last());
            }
        }
        lemma_names_modifier(ws, ms);
        lemma_names_modifier(parts, ms);
        lemma_read_count(ws.drop_last());
        lemma_read_count(ms.names());
    }
}

/// As many modifiers are read as there are words.
proof fn lemma_read_count(ws: Seq<Seq<char>>)
    ensures
        read_modifiers(ws) matches Ok(ms) ==> ws.len() == (if ms.ctrl {
            1int
        } else {
            0
        }) + (if ms.shift {
            1int
        } else {
            0
        }) + (if ms.alt {
            1int
        } else {
            0
        }) + (if ms.meta {
            1int
        } else {
            0
        }),
    decreases ws.len(),
{
    if ws.len() > 0 {
        lemma_read_count(ws.drop_last());
    }
}

} // verus!
