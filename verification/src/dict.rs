//! Dictionary validation: normalizing candidate words and list entries
//! (trimming and lowercasing over the Latin and Cyrillic alphabets) and the
//! two phonetic substitution rules the letter generator makes necessary.
//!
//! A candidate matches a list entry when the entry, trimmed and lowercased,
//! equals the candidate itself, or the candidate with every `е` replaced by
//! `ё`, or the candidate with every `и` replaced by `й` (each substitution
//! applied independently, never combined).

use vstd::prelude::*;
use vstd::string::StrSliceExecFns;

verus! {

broadcast use vstd::utf8::char_u32_cast;

/// The characters the normalizer strips from the ends of a dictionary entry.
pub open spec fn is_trim_space(c: char) -> bool {
    c == ' ' || c == '\t' || c == '\r' || c == '\n'
}

/// Lowercase for the alphabets the board uses: ASCII letters, the 32 base
/// Cyrillic letters, and Cyrillic Io. Every other character maps to itself.
pub open spec fn lower_char(c: char) -> char {
    if 0x41 <= c as u32 <= 0x5A {
        ((c as u32 + 0x20) as u8) as char
    } else if c == 'Ё' {
        'ё'
    } else if 0x410 <= c as u32 <= 0x42F {
        ((c as u32 + 0x20) as u32) as char
    } else {
        c
    }
}

/// Characterwise lowercase of a whole word.
pub open spec fn lower_of(s: Seq<char>) -> Seq<char> {
    s.map_values(|c: char| lower_char(c))
}

/// Characterwise substitution of one letter for another.
pub open spec fn subst(s: Seq<char>, from: char, to: char) -> Seq<char> {
    s.map_values(|c: char| if c == from { to } else { c })
}

/// How many leading trim characters a word starts with.
pub open spec fn trim_start_idx(s: Seq<char>) -> int
    decreases s.len(),
{
    if s.len() == 0 || !is_trim_space(s[0]) {
        0
    } else {
        1 + trim_start_idx(s.drop_first())
    }
}

/// Where the trailing run of trim characters of a word begins.
pub open spec fn trim_end_idx(s: Seq<char>) -> int
    decreases s.len(),
{
    if s.len() == 0 || !is_trim_space(s.last()) {
        s.len() as int
    } else {
        trim_end_idx(s.drop_last())
    }
}

/// The word with leading and trailing trim characters removed.
pub open spec fn trim_of(s: Seq<char>) -> Seq<char> {
    if trim_start_idx(s) <= trim_end_idx(s) {
        s.subrange(trim_start_idx(s), trim_end_idx(s))
    } else {
        Seq::empty()
    }
}

/// How a dictionary entry is normalized before comparison.
pub open spec fn norm_of(s: Seq<char>) -> Seq<char> {
    lower_of(trim_of(s))
}

/// Whether one (already lowercase) candidate matches one dictionary entry,
/// directly or through one of the two phonetic substitutions.
pub open spec fn matches_entry(entry: Seq<char>, w: Seq<char>) -> bool {
    ||| norm_of(entry) == w
    ||| norm_of(entry) == subst(w, 'е', 'ё')
    ||| norm_of(entry) == subst(w, 'и', 'й')
}

/// Whether a candidate matches any entry of the word list.
pub open spec fn word_in_list(dict: Seq<Seq<char>>, w: Seq<char>) -> bool {
    exists|i: int| 0 <= i < dict.len() && matches_entry(dict[i], w)
}

/// `trim_start_idx` names the first index that holds no trim character.
pub proof fn lemma_trim_start(s: Seq<char>)
    ensures
        0 <= trim_start_idx(s) <= s.len(),
        forall|j: int| 0 <= j < trim_start_idx(s) ==> is_trim_space(s[j]),
        trim_start_idx(s) < s.len() ==> !is_trim_space(s[trim_start_idx(s)]),
    decreases s.len(),
{
    if s.len() == 0 || !is_trim_space(s[0]) {
    } else {
        lemma_trim_start(s.drop_first());
        assert forall|j: int| 0 <= j < trim_start_idx(s) implies is_trim_space(s[j]) by {
            if j > 0 {
                assert(s.drop_first()[j - 1] == s[j]);
            }
        }
        if trim_start_idx(s) < s.len() {
            assert(s.drop_first()[trim_start_idx(s) - 1] == s[trim_start_idx(s)]);
        }
    }
}

/// `trim_end_idx` names where the trailing run of trim characters begins.
pub proof fn lemma_trim_end(s: Seq<char>)
    ensures
        0 <= trim_end_idx(s) <= s.len(),
        forall|j: int| trim_end_idx(s) <= j < s.len() ==> is_trim_space(s[j]),
        trim_end_idx(s) > 0 ==> !is_trim_space(s[trim_end_idx(s) - 1]),
    decreases s.len(),
{
    if s.len() == 0 || !is_trim_space(s.last()) {
    } else {
        lemma_trim_end(s.drop_last());
        assert forall|j: int| trim_end_idx(s) <= j < s.len() implies is_trim_space(s[j]) by {
            if j < s.len() - 1 {
                assert(s.drop_last()[j] == s[j]);
            }
        }
        if trim_end_idx(s) > 0 {
            assert(s.drop_last()[trim_end_idx(s) - 1] == s[trim_end_idx(s) - 1]);
        }
    }
}

/// Relies on `String::push`: appends exactly one character to the string.
pub assume_specification[ String::push ](s: &mut String, c: char)
    ensures
        final(s)@ == old(s)@.push(c),
;

fn is_space(c: char) -> (r: bool)
    ensures
        r == is_trim_space(c),
{
    c == ' ' || c == '\t' || c == '\r' || c == '\n'
}

fn lower_char_exec(c: char) -> (r: char)
    ensures
        r == lower_char(c),
{
    let u = c as u32;
    if 0x41 <= u && u <= 0x5A {
        ((u + 0x20) as u8) as char
    } else if c == 'Ё' {
        'ё'
    } else if 0x410 <= u && u <= 0x42F {
        match c {
            'А' => 'а',
            'Б' => 'б',
            'В' => 'в',
            'Г' => 'г',
            'Д' => 'д',
            'Е' => 'е',
            'Ж' => 'ж',
            'З' => 'з',
            'И' => 'и',
            'Й' => 'й',
            'К' => 'к',
            'Л' => 'л',
            'М' => 'м',
            'Н' => 'н',
            'О' => 'о',
            'П' => 'п',
            'Р' => 'р',
            'С' => 'с',
            'Т' => 'т',
            'У' => 'у',
            'Ф' => 'ф',
            'Х' => 'х',
            'Ц' => 'ц',
            'Ч' => 'ч',
            'Ш' => 'ш',
            'Щ' => 'щ',
            'Ъ' => 'ъ',
            'Ы' => 'ы',
            'Ь' => 'ь',
            'Э' => 'э',
            'Ю' => 'ю',
            _ => 'я',
        }
    } else {
        c
    }
}

/// Trims and lowercases one dictionary entry.
fn normalize(entry: &str) -> (r: String)
    ensures
        r@ == norm_of(entry@),
{
    let ghost s: Seq<char> = entry@;
    let n: usize = entry.unicode_len();
    proof {
        lemma_trim_start(s);
        lemma_trim_end(s);
    }
    let mut lo: usize = 0;
    while lo < n && is_space(entry.get_char(lo))
        invariant
            s == entry@,
            n == s.len(),
            0 <= lo <= n,
            forall|j: int| 0 <= j < lo ==> is_trim_space(s[j]),
        decreases n - lo,
    {
        lo = lo + 1;
    }
    let mut hi: usize = n;
    while hi > lo && is_space(entry.get_char(hi - 1))
        invariant
            s == entry@,
            n == s.len(),
            lo <= hi <= n,
            forall|j: int| hi <= j < n ==> is_trim_space(s[j]),
        decreases hi,
    {
        hi = hi - 1;
    }
    proof {
        // The scans land exactly on the indices the trim spec names.
        if lo < n {
            assert(lo == trim_start_idx(s));
            assert(hi == trim_end_idx(s));
        } else {
            assert(trim_start_idx(s) == n);
            assert(hi == n);
            assert(trim_end_idx(s) <= n);
        }
    }
    let mut out = String::new();
    let mut i: usize = lo;
    while i < hi
        invariant
            s == entry@,
            n == s.len(),
            lo <= i <= hi <= n,
            out@.len() == i - lo,
            forall|k: int| 0 <= k < out@.len() ==> out@[k] == lower_char(s[lo + k]),
        decreases hi - i,
    {
        let c = entry.get_char(i);
        out.push(lower_char_exec(c));
        i = i + 1;
    }
    proof {
        assert(out@ =~= norm_of(s));
    }
    out
}

/// Lowercases a whole word, characterwise.
pub fn lower_string(w: &str) -> (r: String)
    ensures
        r@ == lower_of(w@),
{
    let n: usize = w.unicode_len();
    let mut out = String::new();
    let mut i: usize = 0;
    while i < n
        invariant
            n == w@.len(),
            0 <= i <= n,
            out@.len() == i,
            forall|k: int| 0 <= k < i ==> out@[k] == lower_char(w@[k]),
        decreases n - i,
    {
        out.push(lower_char_exec(w.get_char(i)));
        i = i + 1;
    }
    proof {
        assert(out@ =~= lower_of(w@));
    }
    out
}

/// The word with every occurrence of one letter replaced by another.
fn replace_char(w: &str, from: char, to: char) -> (r: String)
    ensures
        r@ == subst(w@, from, to),
{
    let n: usize = w.unicode_len();
    let mut out = String::new();
    let mut i: usize = 0;
    while i < n
        invariant
            n == w@.len(),
            0 <= i <= n,
            out@.len() == i,
            forall|k: int|
                0 <= k < i ==> out@[k] == (if w@[k] == from {
                    to
                } else {
                    w@[k]
                }),
        decreases n - i,
    {
        let c = w.get_char(i);
        if c == from {
            out.push(to);
        } else {
            out.push(c);
        }
        i = i + 1;
    }
    proof {
        assert(out@ =~= subst(w@, from, to));
    }
    out
}

/// Scans the word list for an entry whose normalized form equals the
/// candidate or one of its two substitution variants.
pub fn word_in_list_exec(words: &Vec<String>, w: &String) -> (r: bool)
    ensures
        r == word_in_list(words.deep_view(), w@),
{
    let w2 = replace_char(w.as_str(), 'е', 'ё');
    let w3 = replace_char(w.as_str(), 'и', 'й');
    let mut i: usize = 0;
    while i < words.len()
        invariant
            w2@ == subst(w@, 'е', 'ё'),
            w3@ == subst(w@, 'и', 'й'),
            0 <= i <= words.len(),
            forall|j: int| 0 <= j < i ==> !matches_entry(words.deep_view()[j], w@),
        decreases words.len() - i,
    {
        let norm = normalize(words[i].as_str());
        proof {
            assert(words.deep_view()[i as int] == words@[i as int]@);
        }
        if norm.eq(w) || norm.eq(&w2) || norm.eq(&w3) {
            return true;
        }
        i = i + 1;
    }
    false
}

} // verus!
