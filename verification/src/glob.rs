//! Name filters: case-insensitive glob patterns where `*` matches any run of
//! characters and `?` exactly one (`node_modules`, `*.log`, `build*`).

use vstd::prelude::*;
use crate::text::{ascii_lower, chars_of, string_from_chars, trim, trimmed};

verus! {

/// Whether `text` matches `pattern`.
pub open spec fn glob(text: Seq<char>, pattern: Seq<char>) -> bool
    decreases text.len() + pattern.len(),
{
    if text.len() == 0 {
        if pattern.len() == 0 {
            true
        } else if pattern[0] == '*' {
            glob(text, pattern.drop_first())
        } else {
            false
        }
    } else if pattern.len() == 0 {
        false
    } else if pattern[0] == '*' {
        glob(text, pattern.drop_first()) || glob(text.drop_first(), pattern)
    } else if pattern[0] == '?' {
        glob(text.drop_first(), pattern.drop_first())
    } else {
        text[0] == pattern[0] && glob(text.drop_first(), pattern.drop_first())
    }
}

fn glob_at(text: &Vec<char>, i: usize, pattern: &Vec<char>, j: usize) -> (r: bool)
    requires
        i <= text.len(),
        j <= pattern.len(),
    ensures
        r == glob(text@.skip(i as int), pattern@.skip(j as int)),
    decreases (text.len() - i) + (pattern.len() - j),
{
    let ghost t = text@.skip(i as int);
    let ghost p = pattern@.skip(j as int);
    proof {
        if t.len() > 0 {
            assert(t.drop_first() =~= text@.skip(i + 1));
        }
        if p.len() > 0 {
            assert(p.drop_first() =~= pattern@.skip(j + 1));
        }
    }
    if i == text.len() {
        if j == pattern.len() {
            return true;
        }
        if pattern[j] == '*' {
            return glob_at(text, i, pattern, j + 1);
        }
        return false;
    }
    if j == pattern.len() {
        return false;
    }
    if pattern[j] == '*' {
        glob_at(text, i, pattern, j + 1) || glob_at(text, i + 1, pattern, j)
    } else if pattern[j] == '?' {
        glob_at(text, i + 1, pattern, j + 1)
    } else {
        text[i] == pattern[j] && glob_at(text, i + 1, pattern, j + 1)
    }
}

/// Whether `text` matches the glob `pattern`, character by
/// character and case-sensitively.
pub fn glob_match(text: &str, pattern: &str) -> (r: bool)
    ensures
        r == glob(text@, pattern@),
{
    let t = chars_of(text);
    let p = chars_of(pattern);
    assert(t@.skip(0) =~= t@);
    assert(p@.skip(0) =~= p@);
    glob_at(&t, 0, &p, 0)
}

/// The full Unicode lower-case mapping of a string.
pub uninterp spec fn unicode_lowercase(s: Seq<char>) -> Seq<char>;

/// Every character is ASCII.
pub open spec fn is_ascii_text(s: Seq<char>) -> bool {
    forall|i: int| 0 <= i < s.len() ==> (#[trigger] s[i] as u32) < 128
}

/// `char::to_ascii_uppercase` over a character sequence.
pub open spec fn ascii_upper(s: Seq<char>) -> Seq<char> {
    s.map_values(|c: char| if 'a' <= c <= 'z' { ((c as nat) - 32) as char } else { c })
}

/// `str::to_lowercase`: the contract names the Unicode lower-case mapping,
/// and says of ASCII text only what Unicode fixes for it: `A` to `Z` become
/// `a` to `z`, every other ASCII character stays as it is.
#[verifier::external_body]
pub(crate) fn to_lowercase(s: &str) -> (r: String)
    ensures
        r@ == unicode_lowercase(s@),
        is_ascii_text(s@) ==> r@ == ascii_lower(s@),
{
    s.to_lowercase()
}

/// Whether a name matches one of the filter patterns: both lower-cased, the
/// pattern trimmed first.
pub open spec fn name_matches_any_of(name: Seq<char>, patterns: Seq<Seq<char>>) -> bool {
    exists|i: int|
        0 <= i < patterns.len() && glob(unicode_lowercase(name), unicode_lowercase(trim(#[trigger] patterns[i])))
}

/// Whether an already lower-cased name matches one of the filter patterns,
/// the pattern trimmed and lower-cased.
pub open spec fn lowered_name_matches_any_of(lowered: Seq<char>, patterns: Seq<Seq<char>>) -> bool {
    exists|i: int| 0 <= i < patterns.len() && glob(lowered, unicode_lowercase(trim(#[trigger] patterns[i])))
}

/// Whether a file or directory name hits any filter pattern:
/// case-insensitive, `*` for any run, `?` for one character, matched against
/// the name alone. An ASCII name is lower-cased letter by letter, and a
/// pattern that trims to a lone `*` matches every name.
pub fn name_matches_any(name: &str, patterns: &[String]) -> (r: bool)
    ensures
        r == name_matches_any_of(name@, patterns@.map_values(|p: String| p@)),
        is_ascii_text(name@) ==> r == lowered_name_matches_any_of(
            ascii_lower(name@),
            patterns@.map_values(|p: String| p@),
        ),
        (exists|i: int| 0 <= i < patterns@.len() && trim(#[trigger] patterns@[i]@) == "*"@) ==> r,
{
    let ghost ps = patterns@.map_values(|p: String| p@);
    if patterns.len() == 0 {
        return false;
    }
    let lowered = to_lowercase(name);
    let mut i: usize = 0;
    while i < patterns.len()
        invariant
            i <= patterns.len(),
            ps == patterns@.map_values(|p: String| p@),
            lowered@ == unicode_lowercase(name@),
            is_ascii_text(name@) ==> lowered@ == ascii_lower(name@),
            forall|k: int| 0 <= k < i ==> trim(#[trigger] patterns@[k]@) != "*"@,
            forall|k: int| 0 <= k < i ==> !glob(unicode_lowercase(name@), unicode_lowercase(trim(#[trigger] ps[k]))),
        decreases patterns.len() - i,
    {
        let cs = chars_of(patterns[i].as_str());
        let trimmed_chars = trimmed(cs.as_slice());
        let pattern = string_from_chars(trimmed_chars.as_slice());
        let lowered_pattern = to_lowercase(pattern.as_str());
        assert(ps[i as int] == patterns@[i as int]@);
        if glob_match(lowered.as_str(), lowered_pattern.as_str()) {
            return true;
        }
        proof {
            reveal_strlit("*");
            if trim(patterns@[i as int]@) == "*"@ {
                assert(is_ascii_text("*"@));
                assert(ascii_lower("*"@) =~= seq!['*']);
                law_star_matches_everything(lowered@);
            }
        }
        i = i + 1;
    }
    false
}

/// Case does not matter to an ASCII name: written in upper case it is still
/// ASCII and lower-cases to the same text, so by `name_matches_any`'s
/// contract it hits exactly the patterns the name hits.
pub proof fn law_ascii_case_is_ignored(name: Seq<char>)
    requires
        is_ascii_text(name),
    ensures
        is_ascii_text(ascii_upper(name)),
        ascii_lower(ascii_upper(name)) == ascii_lower(name),
{
    assert forall|i: int| 0 <= i < name.len() implies (#[trigger] ascii_upper(name)[i] as u32) < 128 by {
        assert((name[i] as u32) < 128);
    }
    assert forall|i: int| 0 <= i < name.len() implies #[trigger] ascii_lower(ascii_upper(name))[i] == ascii_lower(name)[i] by {
        let c = name[i];
        assert(ascii_upper(name)[i] == if 'a' <= c <= 'z' { ((c as nat) - 32) as char } else { c });
    }
    assert(ascii_lower(ascii_upper(name)) =~= ascii_lower(name));
}

/// A pattern without `*` or `?` matches exactly the text equal to it.
pub proof fn law_plain_pattern_matches_itself_only(text: Seq<char>, pattern: Seq<char>)
    requires
        forall|k: int| 0 <= k < pattern.len() ==> #[trigger] pattern[k] != '*' && pattern[k] != '?',
    ensures
        glob(text, pattern) <==> text == pattern,
    decreases text.len() + pattern.len(),
{
    if text.len() > 0 && pattern.len() > 0 {
        assert(pattern[0] != '*' && pattern[0] != '?');
        assert forall|k: int| 0 <= k < pattern.drop_first().len() implies #[trigger] pattern.drop_first()[k]
            != '*' && pattern.drop_first()[k] != '?' by {
            assert(pattern.drop_first()[k] == pattern[k + 1]);
        }
        law_plain_pattern_matches_itself_only(text.drop_first(), pattern.drop_first());
        if text == pattern {
            assert(text.drop_first() =~= pattern.drop_first());
        }
        if text[0] == pattern[0] && text.drop_first() == pattern.drop_first() {
            assert forall|k: int| 0 <= k < text.len() implies text[k] == pattern[k] by {
                if k > 0 {
                    assert(text[k] == text.drop_first()[k - 1]);
                    assert(pattern[k] == pattern.drop_first()[k - 1]);
                }
            }
            assert(text =~= pattern);
        }
    } else if text.len() == 0 && pattern.len() > 0 {
        assert(pattern[0] != '*');
    } else if text.len() == 0 && pattern.len() == 0 {
        assert(text =~= pattern);
    }
}

/// A `*` absorbs any run of characters, dots included: whatever text `u`
/// comes before a text that `pattern` matches, `*` followed by `pattern`
/// matches the two together.
pub proof fn law_star_absorbs_any_prefix(u: Seq<char>, text: Seq<char>, pattern: Seq<char>)
    requires
        glob(text, pattern),
    ensures
        glob(u + text, seq!['*'] + pattern),
    decreases u.len(),
{
    let sp = seq!['*'] + pattern;
    assert(sp[0] == '*');
    assert(sp.drop_first() =~= pattern);
    if u.len() == 0 {
        assert(u + text =~= text);
    } else {
        law_star_absorbs_any_prefix(u.drop_first(), text, pattern);
        assert((u + text).drop_first() =~= u.drop_first() + text);
    }
}

/// A `?` takes exactly one character, whichever it is: one character more
/// in front of the text matches `?` in front of the pattern, and an empty
/// text never matches a pattern that starts with `?`.
pub proof fn law_question_mark_takes_one_character(c: char, text: Seq<char>, pattern: Seq<char>)
    ensures
        glob(seq![c] + text, seq!['?'] + pattern) == glob(text, pattern),
        !glob(Seq::<char>::empty(), seq!['?'] + pattern),
{
    let t = seq![c] + text;
    let p = seq!['?'] + pattern;
    assert(t.drop_first() =~= text);
    assert(p.drop_first() =~= pattern);
    assert(p[0] == '?');
}

/// A lone `*` matches every text.
pub proof fn law_star_matches_everything(text: Seq<char>)
    ensures
        glob(text, seq!['*']),
    decreases text.len(),
{
    let star = seq!['*'];
    assert(star.len() == 1 && star[0] == '*');
    assert(star.drop_first() =~= Seq::<char>::empty());
    if text.len() > 0 {
        law_star_matches_everything(text.drop_first());
        assert(glob(text.drop_first(), star));
    } else {
        assert(glob(text, star.drop_first()));
    }
}

} // verus!
