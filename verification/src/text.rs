//! Text as sequences of characters.

use vstd::prelude::*;

verus! {

/// `String::push` appends one character.
pub assume_specification[ String::push ](s: &mut String, c: char)
    ensures
        final(s)@ == old(s)@.push(c),
;

/// The characters of a string.
pub fn chars_of(s: &str) -> (r: Vec<char>)
    ensures
        r@ == s@,
{
    let mut r: Vec<char> = Vec::new();
    for c in it: s.chars()
        invariant
            r@ == it.seq().take(it.index()),
            it.seq() == s@,
    {
        r.push(c);
    }
    r
}

/// The string with the given characters.
pub fn string_of(chars: &[char]) -> (r: String)
    ensures
        r@ == chars@,
{
    let mut r = String::new();
    let mut i: usize = 0;
    while i < chars.len()
        invariant
            i <= chars.len(),
            r@ == chars@.take(i as int),
        decreases chars.len() - i,
    {
        r.push(chars[i]);
        i = i + 1;
    }
    assert(chars@.take(i as int) =~= chars@);
    r
}

/// One string behind another.
pub fn concat(a: &str, b: &str) -> (r: String)
    ensures
        r@ == a@ + b@,
{
    let mut r = a.to_owned();
    r.append(b);
    r
}

/// Whether two strings hold the same characters.
pub fn same(a: &str, b: &str) -> (r: bool)
    ensures
        r == (a@ == b@),
{
    let x = chars_of(a);
    let y = chars_of(b);
    same_chars(&x, &y)
}

pub fn same_chars(a: &[char], b: &[char]) -> (r: bool)
    ensures
        r == (a@ == b@),
{
    if a.len() != b.len() {
        return false;
    }
    let mut i: usize = 0;
    while i < a.len()
        invariant
            i <= a.len(),
            a.len() == b.len(),
            forall|j: int| 0 <= j < i ==> a@[j] == b@[j],
        decreases a.len() - i,
    {
        if a[i] != b[i] {
            return false;
        }
        i = i + 1;
    }
    assert(a@ =~= b@);
    true
}

/// The Unicode characters that are white space.
pub open spec fn is_white(c: char) -> bool {
    ||| '\u{9}' <= c <= '\u{d}'
    ||| c == ' '
    ||| c == '\u{85}'
    ||| c == '\u{a0}'
    ||| c == '\u{1680}'
    ||| '\u{2000}' <= c <= '\u{200a}'
    ||| c == '\u{2028}'
    ||| c == '\u{2029}'
    ||| c == '\u{202f}'
    ||| c == '\u{205f}'
    ||| c == '\u{3000}'
}

pub fn white(c: char) -> (r: bool)
    ensures
        r == is_white(c),
{
    ('\u{9}' <= c && c <= '\u{d}') || c == ' ' || c == '\u{85}' || c == '\u{a0}' || c == '\u{1680}'
        || ('\u{2000}' <= c && c <= '\u{200a}') || c == '\u{2028}' || c == '\u{2029}' || c
        == '\u{202f}' || c == '\u{205f}' || c == '\u{3000}'
}

/// The text from its first character on that is not white space.
pub open spec fn trimmed_start(s: Seq<char>) -> Seq<char>
    decreases s.len(),
{
    if s.len() > 0 && is_white(s.first()) {
        trimmed_start(s.drop_first())
    } else {
        s
    }
}

/// The text up to its last character that is not white space.
pub open spec fn trimmed_end(s: Seq<char>) -> Seq<char>
    decreases s.len(),
{
    if s.len() > 0 && is_white(s.last()) {
        trimmed_end(s.drop_last())
    } else {
        s
    }
}

/// The text without the white space around it.
pub open spec fn trimmed(s: Seq<char>) -> Seq<char> {
    trimmed_end(trimmed_start(s))
}

pub fn trim(s: &[char]) -> (r: Vec<char>)
    ensures
        r@ == trimmed(s@),
{
    let mut from: usize = 0;
    assert(s@.skip(0) =~= s@);
    while from < s.len() && white(s[from])
        invariant
            from <= s.len(),
            trimmed_start(s@.skip(from as int)) == trimmed_start(s@),
        decreases s.len() - from,
    {
        proof {
            assert(s@.skip(from as int).drop_first() =~= s@.skip(from + 1));
        }
        from = from + 1;
    }
    let mut to: usize = s.len();
    assert(s@.subrange(from as int, to as int) =~= s@.skip(from as int));
    while to > from && white(s[to - 1])
        invariant
            from <= to <= s.len(),
            trimmed_end(s@.subrange(from as int, to as int)) == trimmed(s@),
        decreases to - from,
    {
        proof {
            assert(s@.subrange(from as int, to as int).drop_last() =~= s@.subrange(
                from as int,
                to - 1,
            ));
        }
        to = to - 1;
    }
    let mut r: Vec<char> = Vec::new();
    let mut i: usize = from;
    while i < to
        invariant
            from <= i <= to <= s.len(),
            r@ == s@.subrange(from as int, i as int),
        decreases to - i,
    {
        r.push(s[i]);
        i = i + 1;
    }
    r
}

/// The pieces between the separators of a text, empty ones too.
pub open spec fn pieces(s: Seq<char>, separator: char) -> Seq<Seq<char>>
    decreases s.len(),
{
    if s.len() == 0 {
        seq![Seq::empty()]
    } else {
        let before = pieces(s.drop_last(), separator);
        if s.last() == separator {
            before.push(Seq::empty())
        } else {
            before.drop_last().push(before.last().push(s.last()))
        }
    }
}

pub proof fn lemma_pieces_nonempty(s: Seq<char>, separator: char)
    ensures
        pieces(s, separator).len() > 0,
    decreases s.len(),
{
    if s.len() > 0 {
        lemma_pieces_nonempty(s.drop_last(), separator);
    }
}

/// The texts that a list of character vectors holds.
pub open spec fn texts(v: Seq<Vec<char>>) -> Seq<Seq<char>> {
    Seq::new(v.len(), |i: int| v[i]@)
}

pub fn split(s: &[char], separator: char) -> (r: Vec<Vec<char>>)
    ensures
        texts(r@) == pieces(s@, separator),
        r@.len() > 0,
{
    let mut done: Vec<Vec<char>> = Vec::new();
    let mut current: Vec<char> = Vec::new();
    let mut i: usize = 0;
    assert(s@.take(0) =~= Seq::empty());
    while i < s.len()
        invariant
            i <= s.len(),
            texts(done@).push(current@) =~= pieces(s@.take(i as int), separator),
        decreases s.len() - i,
    {
        proof {
            assert(s@.take(i + 1).drop_last() =~= s@.take(i as int));
            lemma_pieces_nonempty(s@.take(i as int), separator);
        }
        let ghost before = pieces(s@.take(i as int), separator);
        assert(before.drop_last() =~= texts(done@));
        let ghost earlier = done@;
        if s[i] == separator {
            let ghost piece = current@;
            done.push(current);
            current = Vec::new();
            assert(texts(done@) =~= texts(earlier).push(piece));
        } else {
            current.push(s[i]);
        }
        i = i + 1;
    }
    let ghost earlier = done@;
    let ghost piece = current@;
    done.push(current);
    proof {
        assert(texts(done@) =~= texts(earlier).push(piece));
        assert(s@.take(i as int) =~= s@);
    }
    done
}

/// The pieces of a list in one text, with a separator between them.
pub open spec fn joined(parts: Seq<Seq<char>>, separator: Seq<char>) -> Seq<char>
    decreases parts.len(),
{
    if parts.len() == 0 {
        Seq::empty()
    } else if parts.len() == 1 {
        parts[0]
    } else {
        joined(parts.drop_last(), separator) + separator + parts.last()
    }
}

pub fn join(parts: &[Vec<char>], separator: &str) -> (r: String)
    ensures
        r@ == joined(texts(parts@), separator@),
{
    let mut r = String::new();
    let mut i: usize = 0;
    while i < parts.len()
        invariant
            i <= parts.len(),
            r@ == joined(texts(parts@).take(i as int), separator@),
        decreases parts.len() - i,
    {
        proof {
            assert(texts(parts@).take(i + 1).drop_last() =~= texts(parts@).take(i as int));
        }
        let piece = string_of(&parts[i]);
        if i > 0 {
            r.append(separator);
        }
        r.append(piece.as_str());
        proof {
            if i == 0 {
                assert(Seq::<char>::empty() + piece@ =~= piece@);
            }
        }
        i = i + 1;
    }
    proof {
        assert(texts(parts@).take(i as int) =~= texts(parts@));
    }
    r
}

/// The character of a digit, in small letters from ten on.
pub open spec fn digit_char(d: int) -> char {
    if d < 10 {
        (d + '0' as int) as char
    } else {
        (d - 10 + 'a' as int) as char
    }
}

fn char_of_digit(d: u8) -> (r: char)
    requires
        d < 36,
    ensures
        r == digit_char(d as int),
{
    if d < 10 {
        (d + 48) as char
    } else {
        (d + 87) as char
    }
}

/// The value of a hexadecimal digit, in either case.
pub open spec fn hex_value(c: char) -> Option<int> {
    if '0' <= c <= '9' {
        Some(c as int - '0' as int)
    } else if 'a' <= c <= 'f' {
        Some(c as int - 'a' as int + 10)
    } else if 'A' <= c <= 'F' {
        Some(c as int - 'A' as int + 10)
    } else {
        None
    }
}

pub fn value_of_hex(c: char) -> (r: Option<u8>)
    ensures
        match r {
            Some(v) => hex_value(c) == Some(v as int) && v < 16,
            None => hex_value(c) is None,
        },
{
    let n: u32 = c as u32;
    if '0' <= c && c <= '9' {
        Some((n - 48) as u8)
    } else if 'a' <= c && c <= 'f' {
        Some((n - 87) as u8)
    } else if 'A' <= c && c <= 'F' {
        Some((n - 55) as u8)
    } else {
        None
    }
}

/// A byte as two hexadecimal digits.
pub open spec fn hex_byte(b: u8) -> Seq<char> {
    seq![digit_char((b / 16) as int), digit_char((b % 16) as int)]
}

pub fn push_hex_byte(s: &mut String, b: u8)
    ensures
        final(s)@ == old(s)@ + hex_byte(b),
{
    s.push(char_of_digit(b / 16));
    s.push(char_of_digit(b % 16));
    assert(s@ =~= old(s)@ + hex_byte(b));
}

/// A number in decimal digits.
pub open spec fn decimal(n: nat) -> Seq<char>
    decreases n,
{
    if n < 10 {
        seq![digit_char(n as int)]
    } else {
        decimal(n / 10).push(digit_char((n % 10) as int))
    }
}

pub fn push_decimal(s: &mut String, n: u64)
    ensures
        final(s)@ == old(s)@ + decimal(n as nat),
    decreases n,
{
    if n >= 10 {
        push_decimal(s, n / 10);
    }
    s.push(char_of_digit((n % 10) as u8));
    assert(s@ =~= old(s)@ + decimal(n as nat));
}

/// An ASCII capital as the small letter; any other character as it is.
pub open spec fn lower(c: char) -> char {
    if 'A' <= c <= 'Z' {
        (c as int + 32) as char
    } else {
        c
    }
}

pub open spec fn upper(c: char) -> char {
    if 'a' <= c <= 'z' {
        (c as int - 32) as char
    } else {
        c
    }
}

pub fn lower_of(c: char) -> (r: char)
    ensures
        r == lower(c),
{
    if 'A' <= c && c <= 'Z' {
        (c as u8 + 32) as char
    } else {
        c
    }
}

pub fn upper_of(c: char) -> (r: char)
    ensures
        r == upper(c),
{
    if 'a' <= c && c <= 'z' {
        (c as u8 - 32) as char
    } else {
        c
    }
}

pub open spec fn lowered(s: Seq<char>) -> Seq<char> {
    s.map_values(|c: char| lower(c))
}

pub fn lower_all(s: &[char]) -> (r: Vec<char>)
    ensures
        r@ == lowered(s@),
{
    let mut r: Vec<char> = Vec::new();
    let mut i: usize = 0;
    while i < s.len()
        invariant
            i <= s.len(),
            r@ == lowered(s@).take(i as int),
        decreases s.len() - i,
    {
        r.push(lower_of(s[i]));
        i = i + 1;
    }
    assert(lowered(s@).take(i as int) =~= lowered(s@));
    r
}

/// Case is kept out of what is white space.
proof fn lemma_white_case(c: char)
    ensures
        is_white(lower(c)) == is_white(c),
{
}

proof fn lemma_trimmed_start_case(s: Seq<char>)
    ensures
        trimmed_start(lowered(s)) == lowered(trimmed_start(s)),
    decreases s.len(),
{
    assert(lowered(s).len() == s.len());
    if s.len() > 0 {
        assert(lowered(s).first() == lower(s.first()));
        lemma_white_case(s.first());
        if is_white(s.first()) {
            assert(lowered(s).drop_first() =~= lowered(s.drop_first()));
            lemma_trimmed_start_case(s.drop_first());
        }
    }
}

proof fn lemma_trimmed_end_case(s: Seq<char>)
    ensures
        trimmed_end(lowered(s)) == lowered(trimmed_end(s)),
    decreases s.len(),
{
    assert(lowered(s).len() == s.len());
    if s.len() > 0 {
        assert(lowered(s).last() == lower(s.last()));
        lemma_white_case(s.last());
        if is_white(s.last()) {
            assert(lowered(s).drop_last() =~= lowered(s.drop_last()));
            lemma_trimmed_end_case(s.drop_last());
        }
    }
}

/// Trimming and lowering can be done in either order.
pub proof fn lemma_trimmed_case(s: Seq<char>)
    ensures
        trimmed(lowered(s)) == lowered(trimmed(s)),
{
    lemma_trimmed_start_case(s);
    lemma_trimmed_end_case(trimmed_start(s));
}

/// The texts of a list, each lowered.
pub open spec fn all_lowered(ps: Seq<Seq<char>>) -> Seq<Seq<char>> {
    ps.map_values(|s: Seq<char>| lowered(s))
}

/// Splitting at a character that is no letter, and lowering, can be done in either order.
pub proof fn lemma_pieces_case(s: Seq<char>, separator: char)
    requires
        !('a' <= separator <= 'z'),
        !('A' <= separator <= 'Z'),
    ensures
        pieces(lowered(s), separator) == all_lowered(pieces(s, separator)),
    decreases s.len(),
{
    assert(lowered(s).len() == s.len());
    if s.len() == 0 {
        assert(lowered(Seq::<char>::empty()) =~= Seq::<char>::empty());
        assert(all_lowered(seq![Seq::<char>::empty()]) =~= seq![Seq::<char>::empty()]);
    } else {
        let before = pieces(s.drop_last(), separator);
        lemma_pieces_nonempty(s.drop_last(), separator);
        lemma_pieces_case(s.drop_last(), separator);
        assert(lowered(s).drop_last() =~= lowered(s.drop_last()));
        assert(lowered(s).last() == lower(s.last()));
        assert((lower(s.last()) == separator) == (s.last() == separator));
        if s.last() == separator {
            assert(lowered(Seq::<char>::empty()) =~= Seq::<char>::empty());
            assert(all_lowered(before.push(Seq::empty())) =~= all_lowered(before).push(
                Seq::empty(),
            ));
        } else {
            assert(lowered(before.last().push(s.last())) =~= lowered(before.last()).push(
                lower(s.last()),
            ));
            assert(all_lowered(before.drop_last().push(before.last().push(s.last())))
                =~= all_lowered(before).drop_last().push(
                all_lowered(before).last().push(lower(s.last())),
            ));
        }
    }
}

proof fn lemma_trimmed_start(s: Seq<char>)
    ensures
        trimmed_start(s).len() > 0 ==> !is_white(trimmed_start(s).first()),
        forall|c: char| trimmed_start(s).contains(c) ==> #[trigger] s.contains(c),
    decreases s.len(),
{
    if s.len() > 0 && is_white(s.first()) {
        let rest = s.drop_first();
        lemma_trimmed_start(rest);
        assert forall|c: char| trimmed_start(s).contains(c) implies #[trigger] s.contains(c) by {
            assert(rest.contains(c));
            let i = choose|i: int| 0 <= i < rest.len() && rest[i] == c;
            assert(s[i + 1] == c);
        }
    }
}

proof fn lemma_trimmed_end(s: Seq<char>)
    ensures
        trimmed_end(s).len() > 0 ==> !is_white(trimmed_end(s).last()),
        trimmed_end(s).len() > 0 ==> trimmed_end(s).first() == s.first(),
        forall|c: char| trimmed_end(s).contains(c) ==> #[trigger] s.contains(c),
    decreases s.len(),
{
    if s.len() > 0 && is_white(s.last()) {
        let rest = s.drop_last();
        lemma_trimmed_end(rest);
        assert forall|c: char| trimmed_end(s).contains(c) implies #[trigger] s.contains(c) by {
            assert(rest.contains(c));
            let i = choose|i: int| 0 <= i < rest.len() && rest[i] == c;
            assert(s[i] == c);
        }
    }
}

/// A trimmed text has no white space at its ends and no character that was not there before.
pub proof fn lemma_trimmed(s: Seq<char>)
    ensures
        trimmed(s).len() > 0 ==> !is_white(trimmed(s).first()) && !is_white(trimmed(s).last()),
        forall|c: char| trimmed(s).contains(c) ==> #[trigger] s.contains(c),
{
    lemma_trimmed_start(s);
    lemma_trimmed_end(trimmed_start(s));
    assert forall|c: char| trimmed(s).contains(c) implies #[trigger] s.contains(c) by {
        assert(trimmed_start(s).contains(c));
    }
}

/// A text without white space at its ends is left as it is.
pub proof fn lemma_untrimmed(s: Seq<char>)
    requires
        s.len() > 0,
        !is_white(s.first()),
        !is_white(s.last()),
    ensures
        trimmed(s) == s,
{
}

/// No piece holds the separator.
pub proof fn lemma_pieces_clean(s: Seq<char>, separator: char)
    ensures
        forall|i: int, j: int|
            #![trigger pieces(s, separator)[i][j]]
            0 <= i < pieces(s, separator).len() && 0 <= j < pieces(s, separator)[i].len()
                ==> pieces(s, separator)[i][j] != separator,
    decreases s.len(),
{
    if s.len() > 0 {
        lemma_pieces_clean(s.drop_last(), separator);
        lemma_pieces_nonempty(s.drop_last(), separator);
        let before = pieces(s.drop_last(), separator);
        let after = pieces(s, separator);
        assert forall|i: int, j: int|
            #![trigger after[i][j]]
            0 <= i < after.len() && 0 <= j < after[i].len() implies after[i][j] != separator by {
            if i < before.len() - 1 {
                assert(after[i] == before[i]);
                assert(before[i][j] != separator);
            } else if i == before.len() - 1 {
                if s.last() == separator {
                    assert(after[i] == before[i]);
                    assert(before[i][j] != separator);
                } else if j < before.last().len() {
                    assert(after[i][j] == before[i][j]);
                }
            }
        }
    }
}

/// Appending a separator and a piece without one appends the piece.
pub proof fn lemma_pieces_append(a: Seq<char>, b: Seq<char>, separator: char)
    requires
        forall|j: int| 0 <= j < b.len() ==> b[j] != separator,
    ensures
        pieces(a.push(separator) + b, separator) == pieces(a, separator).push(b),
    decreases b.len(),
{
    let all = a.push(separator) + b;
    if b.len() == 0 {
        assert(all =~= a.push(separator));
        assert(a.push(separator).drop_last() =~= a);
        assert(b =~= Seq::empty());
    } else {
        lemma_pieces_append(a, b.drop_last(), separator);
        assert(all.drop_last() =~= a.push(separator) + b.drop_last());
        assert(all.last() == b.last());
        let before = pieces(a, separator).push(b.drop_last());
        assert(before.drop_last() =~= pieces(a, separator));
        assert(b.drop_last().push(b.last()) =~= b);
    }
}

pub proof fn lemma_pieces_single(s: Seq<char>, separator: char)
    requires
        forall|j: int| 0 <= j < s.len() ==> s[j] != separator,
    ensures
        pieces(s, separator) == seq![s],
    decreases s.len(),
{
    if s.len() == 0 {
        assert(s =~= Seq::empty());
    } else {
        lemma_pieces_single(s.drop_last(), separator);
        let before = seq![s.drop_last()];
        assert(s.drop_last().push(s.last()) =~= s);
        assert(before.drop_last().push(before.last().push(s.last())) =~= seq![s]);
    }
}

/// Joining pieces and splitting the result gives the pieces back.
pub proof fn lemma_pieces_joined(parts: Seq<Seq<char>>, separator: char)
    requires
        parts.len() > 0,
        forall|i: int, j: int|
            #![trigger parts[i][j]]
            0 <= i < parts.len() && 0 <= j < parts[i].len() ==> parts[i][j] != separator,
    ensures
        pieces(joined(parts, seq![separator]), separator) == parts,
    decreases parts.len(),
{
    let last = parts.last();
    assert forall|j: int| 0 <= j < last.len() implies last[j] != separator by {
        assert(parts[parts.len() - 1][j] != separator);
    }
    if parts.len() == 1 {
        lemma_pieces_single(parts[0], separator);
        assert(seq![parts[0]] =~= parts);
    } else {
        let front = parts.drop_last();
        assert forall|i: int, j: int|
            #![trigger front[i][j]]
            0 <= i < front.len() && 0 <= j < front[i].len() implies front[i][j] != separator by {
            assert(front[i][j] == parts[i][j]);
        }
        lemma_pieces_joined(front, separator);
        let a = joined(front, seq![separator]);
        lemma_pieces_append(a, last, separator);
        assert(joined(parts, seq![separator]) =~= a.push(separator) + last);
        assert(front.push(last) =~= parts);
    }
}

/// What is joined begins with the first piece and ends with the last one.
pub proof fn lemma_joined_ends(parts: Seq<Seq<char>>, separator: char)
    requires
        parts.len() > 0,
        forall|i: int| 0 <= i < parts.len() ==> (#[trigger] parts[i]).len() > 0,
    ensures
        joined(parts, seq![separator]).len() > 0,
        joined(parts, seq![separator]).first() == parts[0].first(),
        joined(parts, seq![separator]).last() == parts[parts.len() - 1].last(),
    decreases parts.len(),
{
    if parts.len() > 1 {
        let front = parts.drop_last();
        assert forall|i: int| 0 <= i < front.len() implies (#[trigger] front[i]).len() > 0 by {
            assert(front[i] == parts[i]);
        }
        lemma_joined_ends(front, separator);
        assert(parts[parts.len() - 1].len() > 0);
        assert(front[0] == parts[0]);
    }
}

/// A text stands at an index of another.
pub open spec fn stands_at(s: Seq<char>, part: Seq<char>, i: int) -> bool {
    0 <= i && i + part.len() <= s.len() && s.subrange(i, i + part.len()) == part
}

/// A text stands somewhere within another.
pub open spec fn holds(s: Seq<char>, part: Seq<char>) -> bool {
    exists|i: int| #[trigger] stands_at(s, part, i)
}

fn at(s: &[char], part: &[char], i: usize) -> (r: bool)
    requires
        i + part@.len() <= s@.len(),
    ensures
        r == stands_at(s@, part@, i as int),
{
    let len: usize = s.len();
    let mut k: usize = 0;
    while k < part.len()
        invariant
            k <= part.len(),
            len == s@.len(),
            i + part@.len() <= len,
            s@.subrange(i as int, i + k) == part@.take(k as int),
        decreases part.len() - k,
    {
        if s[i + k] != part[k] {
            assert(s@.subrange(i as int, i + part@.len())[k as int] != part@[k as int]);
            return false;
        }
        k = k + 1;
        assert(s@.subrange(i as int, i + k) =~= part@.take(k as int));
    }
    assert(part@.take(k as int) =~= part@);
    true
}

/// Whether `part` stands somewhere within `s`.
pub fn contains(s: &str, part: &str) -> (r: bool)
    ensures
        r == holds(s@, part@),
{
    let whole = chars_of(s);
    let piece = chars_of(part);
    if piece.len() > whole.len() {
        return false;
    }
    let last: usize = whole.len() - piece.len();
    let mut i: usize = 0;
    while i <= last
        invariant
            last + piece@.len() == whole@.len(),
            whole@ == s@,
            piece@ == part@,
            i <= last + 1,
            forall|k: int| 0 <= k < i ==> !stands_at(s@, part@, k),
        decreases last + 1 - i,
    {
        if at(&whole, &piece, i) {
            assert(stands_at(s@, part@, i as int));
            return true;
        }
        if i == last {
            assert forall|k: int| !stands_at(s@, part@, k) by {
                if 0 <= k <= last {
                    assert(k < i || k == i);
                }
            }
            return false;
        }
        i = i + 1;
    }
    false
}

/// Whether `s` begins with `part`.
pub fn starts_with(s: &[char], part: &str) -> (r: bool)
    ensures
        r == stands_at(s@, part@, 0),
{
    let piece = chars_of(part);
    if piece.len() > s.len() {
        return false;
    }
    at(s, &piece, 0)
}

/// A text in small letters, as the standard library turns any letter of Unicode into a small
/// one.
pub uninterp spec fn lowercased(s: Seq<char>) -> Seq<char>;

/// `str::to_lowercase`: the result depends on the characters alone.
#[verifier::external_body]
pub(crate) fn lowercase(s: &str) -> (r: String)
    ensures
        r@ == lowercased(s@),
{
    s.to_lowercase()
}

/// The trimmed pieces of a list that are not empty.
pub open spec fn words(ps: Seq<Seq<char>>) -> Seq<Seq<char>>
    decreases ps.len(),
{
    if ps.len() == 0 {
        Seq::empty()
    } else {
        let before = words(ps.drop_last());
        let word = trimmed(ps.last());
        if word.len() == 0 {
            before
        } else {
            before.push(word)
        }
    }
}

/// Taking words and lowering can be done in either order.
pub proof fn lemma_words_case(ps: Seq<Seq<char>>)
    ensures
        words(all_lowered(ps)) == all_lowered(words(ps)),
    decreases ps.len(),
{
    if ps.len() == 0 {
        assert(all_lowered(words(ps)) =~= Seq::empty());
    } else {
        lemma_words_case(ps.drop_last());
        lemma_trimmed_case(ps.last());
        assert(all_lowered(ps).drop_last() =~= all_lowered(ps.drop_last()));
        assert(all_lowered(ps).last() == lowered(ps.last()));
        let before = words(ps.drop_last());
        let word = trimmed(ps.last());
        assert(lowered(word).len() == word.len());
        if word.len() > 0 {
            assert(all_lowered(before.push(word)) =~= all_lowered(before).push(lowered(word)));
        }
    }
}

/// Splits a text at a character into trimmed words; empty ones are left out.
pub fn split_words(s: &[char], separator: char) -> (r: Vec<Vec<char>>)
    ensures
        texts(r@) == words(pieces(s@, separator)),
{
    let ps = split(s, separator);
    let ghost all = texts(ps@);
    let mut r: Vec<Vec<char>> = Vec::new();
    let mut i: usize = 0;
    assert(texts(r@) =~= words(all.take(0)));
    while i < ps.len()
        invariant
            i <= ps@.len(),
            all == texts(ps@),
            texts(r@) == words(all.take(i as int)),
        decreases ps.len() - i,
    {
        assert(all.take(i + 1).drop_last() =~= all.take(i as int));
        let word = trim(&ps[i]);
        let ghost before = r@;
        let ghost w = word@;
        if word.len() > 0 {
            r.push(word);
            assert(texts(r@) =~= texts(before).push(w));
        }
        i = i + 1;
    }
    assert(all.take(i as int) =~= all);
    r
}

pub proof fn lemma_words_nonempty(ps: Seq<Seq<char>>)
    ensures
        forall|i: int| 0 <= i < words(ps).len() ==> (#[trigger] words(ps)[i]).len() > 0,
    decreases ps.len(),
{
    if ps.len() > 0 {
        lemma_words_nonempty(ps.drop_last());
        let before = words(ps.drop_last());
        let after = words(ps);
        assert forall|i: int| 0 <= i < after.len() implies (#[trigger] after[i]).len() > 0 by {
            if i < before.len() {
                assert(after[i] == before[i]);
            }
        }
    }
}

/// The longest pieces of a text without white space.
pub open spec fn fields(s: Seq<char>) -> Seq<Seq<char>>
    decreases s.len(),
{
    if s.len() == 0 {
        Seq::empty()
    } else {
        let before = fields(s.drop_last());
        if is_white(s.last()) {
            before
        } else if s.len() == 1 || is_white(s[s.len() - 2]) {
            before.push(seq![s.last()])
        } else {
            before.drop_last().push(before.last().push(s.last()))
        }
    }
}

proof fn lemma_fields_nonempty(s: Seq<char>)
    requires
        s.len() > 0,
        !is_white(s.last()),
    ensures
        fields(s).len() > 0,
{
}

/// Splits a text at its white space.
pub fn split_white(s: &[char]) -> (r: Vec<Vec<char>>)
    ensures
        texts(r@) == fields(s@),
{
    let mut r: Vec<Vec<char>> = Vec::new();
    let mut i: usize = 0;
    assert(texts(r@) =~= fields(s@.take(0)));
    while i < s.len()
        invariant
            i <= s@.len(),
            texts(r@) == fields(s@.take(i as int)),
        decreases s.len() - i,
    {
        let ghost now = s@.take(i + 1);
        assert(now.drop_last() =~= s@.take(i as int));
        let ghost before = r@;
        if !white(s[i]) {
            if i == 0 || white(s[i - 1]) {
                let mut word: Vec<char> = Vec::new();
                word.push(s[i]);
                assert(word@ =~= seq![s@[i as int]]);
                r.push(word);
                assert(texts(r@) =~= texts(before).push(seq![s@[i as int]]));
            } else {
                proof {
                    lemma_fields_nonempty(s@.take(i as int));
                    assert(texts(before).len() == before.len());
                }
                if let Some(mut word) = r.pop() {
                    assert(texts(before).last() == word@);
                    word.push(s[i]);
                    r.push(word);
                    assert(texts(r@) =~= texts(before).drop_last().push(
                        texts(before).last().push(s@[i as int]),
                    ));
                }
            }
        }
        i = i + 1;
    }
    assert(s@.take(i as int) =~= s@);
    r
}

/// The number that decimal digits stand for.
pub open spec fn digits_value(s: Seq<char>) -> Option<nat>
    decreases s.len(),
{
    if s.len() == 0 {
        Some(0)
    } else if '0' <= s.last() <= '9' {
        match digits_value(s.drop_last()) {
            Some(n) => Some(10 * n + (s.last() as nat - '0' as nat) as nat),
            None => None,
        }
    } else {
        None
    }
}

/// The number that a text stands for: decimal digits, perhaps after a plus sign.
pub open spec fn number(s: Seq<char>) -> Option<u64> {
    let digits = if s.len() > 0 && s[0] == '+' {
        s.drop_first()
    } else {
        s
    };
    match digits_value(digits) {
        Some(n) => if digits.len() > 0 && n <= u64::MAX {
            Some(n as u64)
        } else {
            None
        },
        None => None,
    }
}

proof fn lemma_digits_prefix(s: Seq<char>, n: int)
    requires
        0 <= n <= s.len(),
        digits_value(s) is Some,
    ensures
        digits_value(s.take(n)) matches Some(v) && v <= digits_value(s)->0,
    decreases s.len() - n,
{
    if n < s.len() {
        lemma_digits_prefix(s, n + 1);
        assert(s.take(n + 1).drop_last() =~= s.take(n));
    } else {
        assert(s.take(n) =~= s);
    }
}

/// Reads a number.
pub fn parse_number(s: &[char]) -> (r: Option<u64>)
    ensures
        r == number(s@),
{
    let start: usize = if s.len() > 0 && s[0] == '+' {
        1
    } else {
        0
    };
    let ghost digits = s@.skip(start as int);
    proof {
        if start == 0 {
            assert(digits =~= s@);
        } else {
            assert(digits =~= s@.drop_first());
        }
    }
    if start == s.len() {
        return None;
    }
    let mut v: u64 = 0;
    let mut i: usize = start;
    assert(digits.take(0) =~= Seq::empty());
    while i < s.len()
        invariant
            start <= i <= s@.len(),
            digits == s@.skip(start as int),
            digits.len() > 0,
            number(s@) == match digits_value(digits) {
                Some(n) => if n <= u64::MAX {
                    Some(n as u64)
                } else {
                    None
                },
                None => None,
            },
            digits_value(digits.take(i - start)) == Some(v as nat),
        decreases s.len() - i,
    {
        let c: char = s[i];
        assert(digits.take(i - start + 1).drop_last() =~= digits.take(i - start));
        assert(digits.take(i - start + 1).last() == c);
        proof {
            if digits_value(digits) is Some {
                lemma_digits_prefix(digits, i - start + 1);
            }
        }
        if c < '0' || c > '9' {
            return None;
        }
        let d: u64 = c as u64 - '0' as u64;
        let next: u128 = 10 * (v as u128) + (d as u128);
        if next > 0xffff_ffff_ffff_ffff {
            return None;
        }
        v = next as u64;
        i = i + 1;
    }
    assert(digits.take(i - start) =~= digits);
    Some(v)
}

/// The text of an optional string.
pub open spec fn maybe(o: Option<String>) -> Option<Seq<char>> {
    match o {
        Some(s) => Some(s@),
        None => None,
    }
}

pub fn copy_maybe(o: &Option<String>) -> (r: Option<String>)
    ensures
        maybe(r) == maybe(*o),
{
    match o {
        Some(s) => Some(s.clone()),
        None => None,
    }
}

/// Whether two texts differ at most in the case of ASCII letters.
pub fn same_ignoring_case(a: &[char], b: &[char]) -> (r: bool)
    ensures
        r == (lowered(a@) == lowered(b@)),
{
    let x = lower_all(a);
    let y = lower_all(b);
    same_chars(&x, &y)
}

/// A further decimal digit makes ten times the number, and the digit more.
pub proof fn law_decimal_digit(n: nat, d: int)
    requires
        0 <= d < 10,
    ensures
        n == 0 ==> decimal(d as nat) == seq![(48 + d) as char],
        n > 0 ==> decimal((10 * n + d) as nat) == decimal(n).push((48 + d) as char),
{
}

proof fn lemma_decimal_value(n: nat)
    ensures
        decimal(n).len() > 0,
        '0' <= decimal(n)[0] <= '9',
        digits_value(decimal(n)) == Some(n),
    decreases n,
{
    if n < 10 {
        let s = decimal(n);
        assert(s.drop_last() =~= Seq::empty());
        assert(digits_value(s.drop_last()) == Some(0nat));
        assert(s.last() == digit_char(n as int));
    } else {
        lemma_decimal_value(n / 10);
        let s = decimal(n);
        assert(s.drop_last() =~= decimal(n / 10));
        assert(s.last() == digit_char((n % 10) as int));
    }
}

/// A number in decimal digits is read as that number.
pub proof fn law_decimal_read(n: nat)
    ensures
        number(decimal(n)) == (if n <= u64::MAX {
            Some(n as u64)
        } else {
            None
        }),
        number(seq!['+'] + decimal(n)) == number(decimal(n)),
{
    lemma_decimal_value(n);
    assert((seq!['+'] + decimal(n)).drop_first() =~= decimal(n));
}

/// White space parts the fields of a text, whatever stands before and behind it.
pub proof fn law_fields_parted(a: Seq<char>, gap: Seq<char>, b: Seq<char>)
    requires
        gap.len() > 0,
        forall|i: int| 0 <= i < gap.len() ==> is_white(#[trigger] gap[i]),
    ensures
        fields(a + gap + b) == fields(a) + fields(b),
    decreases gap.len() + b.len(),
{
    let s = a + gap + b;
    if b.len() > 0 {
        law_fields_parted(a, gap, b.drop_last());
        assert(s.drop_last() =~= a + gap + b.drop_last());
        assert(s.last() == b.last());
        assert(b.len() > 1 ==> s[s.len() - 2] == b[b.len() - 2]);
        assert(b.len() == 1 ==> s[s.len() - 2] == gap.last());
        let (fa, fb) = (fields(a), fields(b.drop_last()));
        if is_white(b.last()) {
        } else if b.len() == 1 || is_white(b[b.len() - 2]) {
            assert((fa + fb).push(seq![b.last()]) =~= fa + fb.push(seq![b.last()]));
        } else {
            lemma_fields_nonempty(b.drop_last());
            let more = fb.last().push(b.last());
            assert((fa + fb).drop_last() =~= fa + fb.drop_last());
            assert((fa + fb.drop_last()).push(more) =~= fa + fb.drop_last().push(more));
        }
    } else {
        assert(s =~= a + gap);
        assert(is_white(gap[gap.len() - 1]));
        assert(s.drop_last() =~= a + gap.drop_last());
        assert(fields(b) =~= Seq::empty());
        assert(fields(a) + fields(b) =~= fields(a));
        if gap.len() > 1 {
            law_fields_parted(a, gap.drop_last(), b);
            assert(a + gap.drop_last() + b =~= a + gap.drop_last());
        } else {
            assert(a + gap.drop_last() =~= a);
        }
    }
}

/// A text without white space is one field.
pub proof fn law_field_alone(s: Seq<char>)
    requires
        s.len() > 0,
        forall|i: int| 0 <= i < s.len() ==> !is_white(#[trigger] s[i]),
    ensures
        fields(s) == seq![s],
    decreases s.len(),
{
    assert(!is_white(s[s.len() - 1]));
    if s.len() == 1 {
        assert(fields(s.drop_last()) =~= Seq::empty());
        assert(seq![s.last()] =~= s);
        assert(fields(s) =~= seq![s]);
    } else {
        assert(!is_white(s[s.len() - 2]));
        law_field_alone(s.drop_last());
        let before = seq![s.drop_last()];
        assert(before.last().push(s.last()) =~= s);
        assert(before.drop_last().push(s) =~= seq![s]);
    }
}

/// Splitting a text at a separator gives pieces without the separator; joined by it, they are
/// the text again.
pub proof fn law_pieces_rejoined(s: Seq<char>, separator: char)
    ensures
        joined(pieces(s, separator), seq![separator]) == s,
        forall|i: int|
            0 <= i < pieces(s, separator).len() ==> !(#[trigger] pieces(s, separator)[i]).contains(
                separator,
            ),
    decreases s.len(),
{
    let ps = pieces(s, separator);
    lemma_pieces_nonempty(s, separator);
    if s.len() == 0 {
        assert(ps[0] =~= s);
    } else {
        let t = s.drop_last();
        let before = pieces(t, separator);
        law_pieces_rejoined(t, separator);
        lemma_pieces_nonempty(t, separator);
        if s.last() == separator {
            assert(ps.drop_last() =~= before);
            assert(joined(ps, seq![separator]) =~= t + seq![separator]);
            assert(s =~= t + seq![separator]);
        } else {
            assert(ps.drop_last() =~= before.drop_last());
            let word = before.last().push(s.last());
            assert(ps.last() == word);
            assert(s =~= t.push(s.last()));
            if before.len() == 1 {
                assert(ps.len() == 1);
                assert(joined(ps, seq![separator]) == word);
            } else {
                let head = joined(before.drop_last(), seq![separator]) + seq![separator];
                assert(joined(before, seq![separator]) == head + before.last());
                assert(joined(ps, seq![separator]) == head + word);
                assert(head + word =~= t.push(s.last()));
            }
            assert forall|i: int| 0 <= i < ps.len() implies !(#[trigger] ps[i]).contains(
                separator,
            ) by {
                if i < ps.len() - 1 {
                    assert(ps[i] == before[i]);
                } else {
                    let old_word = before[before.len() - 1];
                    assert(!old_word.contains(separator));
                    if word.contains(separator) {
                        let j = choose|j: int| 0 <= j < word.len() && word[j] == separator;
                        assert(j < old_word.len());
                        assert(old_word[j] == separator);
                    }
                }
            }
        }
    }
}

/// The white space around a text does not count, and what is left has none at its ends.
pub proof fn law_trimmed_core(before: Seq<char>, s: Seq<char>, after: Seq<char>)
    requires
        forall|i: int| 0 <= i < before.len() ==> is_white(#[trigger] before[i]),
        forall|i: int| 0 <= i < after.len() ==> is_white(#[trigger] after[i]),
        s.len() > 0,
        !is_white(s.first()),
        !is_white(s.last()),
    ensures
        trimmed(before + s + after) == s,
    decreases before.len() + after.len(),
{
    let t = before + s + after;
    if before.len() > 0 {
        assert(is_white(before[0]));
        let rest = before.drop_first();
        assert forall|i: int| 0 <= i < rest.len() implies is_white(#[trigger] rest[i]) by {
            assert(is_white(before[i + 1]));
        }
        law_trimmed_core(rest, s, after);
        assert(t.drop_first() =~= rest + s + after);
        assert(t.first() == before[0]);
    } else if after.len() > 0 {
        assert(is_white(after[after.len() - 1]));
        law_trimmed_core(before, s, after.drop_last());
        assert(t.first() == s.first());
        assert(t.drop_last() =~= before + s + after.drop_last());
        assert((before + s + after.drop_last()).first() == s.first());
    } else {
        assert(t =~= s);
    }
}

/// The case of an ASCII letter can be changed and changed back, by thirty-two places; no other
/// character has a case.
pub proof fn law_letter_case(c: char)
    ensures
        'A' <= c <= 'Z' ==> lower(c) as int == c as int + 32 && upper(lower(c)) == c,
        'a' <= c <= 'z' ==> upper(c) as int == c as int - 32 && lower(upper(c)) == c,
        !('A' <= c <= 'Z') ==> lower(c) == c,
        !('a' <= c <= 'z') ==> upper(c) == c,
{
}

/// The first piece of a text reaches to its first separator.
pub proof fn law_first_piece(a: Seq<char>, rest: Seq<char>, separator: char)
    requires
        !a.contains(separator),
        rest.len() == 0 || rest[0] == separator,
    ensures
        pieces(a + rest, separator)[0] == a,
    decreases rest.len(),
{
    if rest.len() == 0 {
        assert(a + rest =~= a);
        assert forall|j: int| 0 <= j < a.len() implies a[j] != separator by {
            assert(a.contains(a[j]));
        }
        lemma_pieces_single(a, separator);
    } else {
        let t = a + rest.drop_last();
        law_first_piece(a, rest.drop_last(), separator);
        assert((a + rest).drop_last() =~= t);
        lemma_pieces_nonempty(t, separator);
        if rest.len() > 1 {
            lemma_two_pieces(t, separator, a.len() as int);
        }
    }
}

proof fn lemma_two_pieces(s: Seq<char>, separator: char, at: int)
    requires
        0 <= at < s.len(),
        s[at] == separator,
    ensures
        pieces(s, separator).len() > 1,
    decreases s.len(),
{
    lemma_pieces_nonempty(s.drop_last(), separator);
    if at < s.len() - 1 {
        lemma_two_pieces(s.drop_last(), separator, at);
    }
}

} // verus!
